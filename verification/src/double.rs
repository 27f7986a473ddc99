//! Binary floating-point numbers with a significand of 53 bits, in integers.
//!
//! Only what an average of non-negative sizes needs is here. A number is a
//! multiple of the smallest positive one, one `2^1074`th; operations round to the
//! nearest number, and from halfway to the one with the even significand.

use vstd::arithmetic::div_mod::{
    lemma_div_denominator, lemma_fundamental_div_mod, lemma_fundamental_div_mod_converse,
};
use vstd::arithmetic::power2::{
    lemma2_to64, lemma_pow2_adds, lemma_pow2_pos, lemma_pow2_strictly_increases,
    lemma_pow2_unfold, pow2,
};
use vstd::prelude::*;

verus! {

/// Significands lie below this: `2^53`.
pub const SIGNIFICAND_END: u64 = 0x20_0000_0000_0000;

/// Significands lie above this, or at it, unless the exponent is the smallest:
/// `2^52`.
pub const SIGNIFICAND_MIN: u64 = 0x10_0000_0000_0000;

/// `n / d` as a whole number: the nearest, from halfway the even one.
pub open spec fn half_even(n: int, d: int) -> int {
    if 2 * (n % d) < d || 2 * (n % d) == d && n / d % 2 == 0 {
        n / d
    } else {
        n / d + 1
    }
}

/// How many bits `q` has beyond 53.
pub open spec fn excess(q: int) -> nat
    decreases q,
{
    if q < SIGNIFICAND_END {
        0
    } else {
        1 + excess(q / 2)
    }
}

/// `n / d` as a floating-point number: what exceeds 53 bits is rounded away.
pub open spec fn nearest(n: int, d: int) -> int {
    let e = excess(n / d);
    half_even(n, d * pow2(e)) * pow2(e)
}

/// Whether significand and exponent are those of a floating-point number.
pub open spec fn canonical(m: int, e: nat) -> bool {
    &&& 0 <= m < SIGNIFICAND_END
    &&& e > 0 ==> m >= SIGNIFICAND_MIN
}

/// Whether a count of smallest positive numbers is a floating-point number.
pub open spec fn is_double(v: int) -> bool {
    exists|m: int, e: nat| #[trigger] canonical(m, e) && v == m * pow2(e)
}

// ---- rounding ----

proof fn lemma_half_even(n: int, d: int)
    requires
        0 <= n,
        0 < d,
    ensures
        half_even(n, d) == n / d || half_even(n, d) == n / d + 1,
        -d <= 2 * (half_even(n, d) * d - n) <= d,
        2 * (half_even(n, d) * d - n) == d || 2 * (half_even(n, d) * d - n) == -d ==> half_even(n, d)
            % 2 == 0,
        0 <= n / d,
        n / d * d <= n < (n / d + 1) * d,
{
    lemma_fundamental_div_mod(n, d);
    let q = n / d;
    let r = n % d;
    assert(q * d == d * q && (q + 1) * d == q * d + d) by (nonlinear_arith);
    assert(0 <= q) by (nonlinear_arith)
        requires
            q == n / d,
            0 <= n,
            0 < d,
    ;
}

/// A whole number that is nearer than halfway, or halfway and even, is the
/// rounded one.
proof fn lemma_half_even_is(n: int, d: int, r: int)
    requires
        0 <= n,
        0 < d,
        -d <= 2 * (r * d - n) <= d,
        2 * (r * d - n) == d || 2 * (r * d - n) == -d ==> r % 2 == 0,
    ensures
        half_even(n, d) == r,
{
    lemma_half_even(n, d);
    let h = half_even(n, d);
    let t = h - r;
    assert(h * d - r * d == t * d) by (nonlinear_arith)
        requires
            t == h - r,
    ;
    assert(-d <= t * d <= d);
    assert(-1 <= t <= 1) by (nonlinear_arith)
        requires
            -d <= t * d <= d,
            0 < d,
    ;
    if t == 1 {
        assert(t * d == d) by (nonlinear_arith)
            requires
                t == 1,
        ;
    } else if t == -1 {
        assert(t * d == -d) by (nonlinear_arith)
            requires
                t == -1,
        ;
    }
}

proof fn lemma_half_even_scaled(n: int, d: int, k: int)
    requires
        0 <= n,
        0 < d,
        0 < k,
    ensures
        half_even(n * k, d * k) == half_even(n, d),
{
    lemma_half_even(n, d);
    let r = half_even(n, d);
    let off = r * d - n;
    assert(0 <= n * k && 0 < d * k && r * (d * k) - n * k == off * k && -(d * k) <= 2 * (off * k)
        <= d * k) by (nonlinear_arith)
        requires
            0 <= n,
            0 < d,
            0 < k,
            off == r * d - n,
            -d <= 2 * off <= d,
    ;
    assert(2 * (off * k) == d * k ==> 2 * off == d) by (nonlinear_arith)
        requires
            0 < k,
    ;
    assert(2 * (off * k) == -(d * k) ==> 2 * off == -d) by (nonlinear_arith)
        requires
            0 < k,
    ;
    lemma_half_even_is(n * k, d * k, r);
}

proof fn lemma_half_even_monotone(n1: int, n2: int, d: int)
    requires
        0 <= n1 <= n2,
        0 < d,
    ensures
        half_even(n1, d) <= half_even(n2, d),
{
    lemma_half_even(n1, d);
    lemma_half_even(n2, d);
    let r1 = half_even(n1, d);
    let r2 = half_even(n2, d);
    if r1 > r2 {
        assert(r1 * d >= r2 * d + d) by (nonlinear_arith)
            requires
                r1 >= r2 + 1,
                0 < d,
        ;
        assert(n1 == n2);
    }
}

/// Which number of bits is in excess.
proof fn lemma_excess(q: int, e: nat)
    requires
        0 <= q,
        q / (pow2(e) as int) < SIGNIFICAND_END,
        e > 0 ==> SIGNIFICAND_MIN <= q / (pow2(e) as int),
    ensures
        excess(q) == e,
    decreases e,
{
    lemma_pow2_pos(e);
    if e == 0 {
        lemma2_to64();
    } else {
        let f = (e - 1) as nat;
        lemma_pow2_unfold(e);
        lemma_pow2_pos(f);
        lemma_div_denominator(q, 2, pow2(f) as int);
        assert(q / 2 / (pow2(f) as int) == q / (pow2(e) as int));
        assert(q >= SIGNIFICAND_END) by (nonlinear_arith)
            requires
                q / (pow2(e) as int) >= SIGNIFICAND_MIN,
                pow2(e) >= 2,
                SIGNIFICAND_END == 2 * SIGNIFICAND_MIN,
        ;
        if e > 1 {
            lemma_excess(q / 2, f);
        } else {
            lemma2_to64();
            assert(q / 2 < SIGNIFICAND_END);
        }
    }
}

proof fn lemma_excess_range(q: int)
    requires
        0 <= q,
    ensures
        q / (pow2(excess(q)) as int) < SIGNIFICAND_END,
        excess(q) > 0 ==> SIGNIFICAND_MIN <= q / (pow2(excess(q)) as int),
    decreases q,
{
    lemma2_to64();
    if q >= SIGNIFICAND_END {
        let f = excess(q / 2);
        lemma_excess_range(q / 2);
        lemma_pow2_unfold((f + 1) as nat);
        lemma_pow2_pos(f);
        lemma_div_denominator(q, 2, pow2(f) as int);
    }
}

/// The exponent that a quotient is rounded with.
proof fn lemma_nearest_exponent(n: int, d: int) -> (e: nat)
    requires
        0 <= n,
        0 < d,
    ensures
        nearest(n, d) == half_even(n, d * pow2(e)) * pow2(e),
        n / (d * pow2(e)) < SIGNIFICAND_END,
        e > 0 ==> SIGNIFICAND_MIN <= n / (d * pow2(e)),
        0 < pow2(e),
        0 < d * pow2(e),
{
    let q = n / d;
    let e = excess(q);
    lemma_half_even(n, d);
    lemma_excess_range(q);
    lemma_pow2_pos(e);
    lemma_div_denominator(n, d, pow2(e) as int);
    assert(0 < d * pow2(e)) by (nonlinear_arith)
        requires
            0 < d,
            0 < pow2(e),
    ;
    e
}

/// A quotient is rounded with the exponent that leaves 53 bits.
proof fn lemma_nearest_at(n: int, d: int, e: nat)
    requires
        0 <= n,
        0 < d,
        n / (d * pow2(e)) < SIGNIFICAND_END,
        e > 0 ==> SIGNIFICAND_MIN <= n / (d * pow2(e)),
    ensures
        nearest(n, d) == half_even(n, d * pow2(e)) * pow2(e),
{
    lemma_half_even(n, d);
    lemma_pow2_pos(e);
    lemma_div_denominator(n, d, pow2(e) as int);
    lemma_excess(n / d, e);
}

proof fn lemma_div_scaled(n: int, d: int, k: int)
    requires
        0 <= n,
        0 < d,
        0 < k,
    ensures
        (n * k) / (d * k) == n / d,
{
    lemma_fundamental_div_mod(n, d);
    let q = n / d;
    let r = n % d;
    assert(n * k == q * (d * k) + r * k && 0 <= r * k < d * k) by (nonlinear_arith)
        requires
            n == d * q + r,
            0 <= r < d,
            0 < k,
    ;
    lemma_fundamental_div_mod_converse(n * k, d * k, q, r * k);
}

/// Rounding does not depend on how a quotient is written.
pub proof fn lemma_nearest_scaled(n: int, d: int, k: int)
    requires
        0 <= n,
        0 < d,
        0 < k,
    ensures
        nearest(n * k, d * k) == nearest(n, d),
{
    let e = lemma_nearest_exponent(n, d);
    let p = pow2(e) as int;
    assert((d * k) * p == (d * p) * k) by (nonlinear_arith);
    assert(0 <= n * k && 0 < d * k) by (nonlinear_arith)
        requires
            0 <= n,
            0 < d,
            0 < k,
    ;
    lemma_div_scaled(n, d * p, k);
    lemma_half_even_scaled(n, d * p, k);
    lemma_nearest_at(n * k, d * k, e);
}

/// A significand times a power of two is rounded by its significand.
proof fn lemma_nearest_shifted(n: int, d: int, e: nat, k: int)
    requires
        0 <= n,
        0 < d,
        0 < k,
        n / d < SIGNIFICAND_END,
        e > 0 ==> SIGNIFICAND_MIN <= n / d,
        k * pow2(e) > 0,
    ensures
        nearest(n * (k * pow2(e)), d * k) == half_even(n, d) * pow2(e),
{
    let p = pow2(e) as int;
    let kp = k * p;
    lemma_pow2_pos(e);
    assert((d * k) * p == d * kp) by (nonlinear_arith)
        requires
            kp == k * p,
    ;
    assert(0 <= n * kp && 0 < d * k) by (nonlinear_arith)
        requires
            0 <= n,
            0 < d,
            0 < k,
            0 < kp,
    ;
    lemma_div_scaled(n, d, kp);
    lemma_half_even_scaled(n, d, kp);
    lemma_nearest_at(n * kp, d * k, e);
}

/// A floating-point number is its own nearest.
pub proof fn lemma_nearest_exact(v: int, d: int)
    requires
        is_double(v),
        0 < d,
    ensures
        nearest(v * d, d) == v,
        0 <= v,
{
    let (m, e) = choose|m: int, e: nat| #[trigger] canonical(m, e) && v == m * pow2(e);
    let p = pow2(e) as int;
    lemma_pow2_pos(e);
    assert(0 < 1 * p);
    assert(m / 1 == m);
    lemma_nearest_shifted(m, 1, e, 1);
    lemma_half_even_is(m, 1, m);
    assert(m * (1 * p) == v);
    assert(0 <= v) by (nonlinear_arith)
        requires
            v == m * p,
            0 <= m,
            0 < p,
    ;
    lemma_nearest_scaled(v, 1, d);
    assert(1 * d == d);
}

/// Larger numbers are rounded to larger ones.
pub proof fn lemma_nearest_monotone(n1: int, n2: int, d: int)
    requires
        0 <= n1 <= n2,
        0 < d,
    ensures
        0 <= nearest(n1, d) <= nearest(n2, d),
{
    let e1 = lemma_nearest_exponent(n1, d);
    let e2 = lemma_nearest_exponent(n2, d);
    let p1 = pow2(e1) as int;
    let p2 = pow2(e2) as int;
    let d1 = d * p1;
    let d2 = d * p2;
    lemma_half_even(n1, d1);
    lemma_half_even(n2, d2);
    let r1 = half_even(n1, d1);
    let r2 = half_even(n2, d2);
    assert(0 <= r1 * p1) by (nonlinear_arith)
        requires
            0 <= r1,
            0 < p1,
    ;
    if e1 == e2 {
        lemma_half_even_monotone(n1, n2, d1);
        assert(r1 * p1 <= r2 * p1) by (nonlinear_arith)
            requires
                r1 <= r2,
                0 < p1,
        ;
    } else if e1 < e2 {
        lemma_pow2_unfold((e1 + 1) as nat);
        if e1 + 1 < e2 {
            lemma_pow2_strictly_increases((e1 + 1) as nat, e2);
        }
        assert(2 * p1 <= p2);
        assert(r1 * p1 <= r2 * p2) by (nonlinear_arith)
            requires
                0 <= r1 <= 2 * SIGNIFICAND_MIN,
                SIGNIFICAND_MIN <= r2,
                0 < p1,
                2 * p1 <= p2,
        ;
    } else {
        lemma_pow2_unfold((e2 + 1) as nat);
        if e2 + 1 < e1 {
            lemma_pow2_strictly_increases((e2 + 1) as nat, e1);
        }
        assert(2 * p2 <= p1);
        let q1 = n1 / d1;
        let q2 = n2 / d2;
        assert(q1 * d1 >= (q2 + 1) * d2) by (nonlinear_arith)
            requires
                q1 >= SIGNIFICAND_MIN,
                q2 + 1 <= 2 * SIGNIFICAND_MIN,
                d1 == d * p1,
                d2 == d * p2,
                2 * p2 <= p1,
                0 < d,
                0 < p2,
                0 <= q2,
        ;
        assert(false);
    }
}

/// A product of at most 53 bits with a power of two is a floating-point number.
pub proof fn lemma_is_double(m: int, e: nat)
    requires
        0 <= m <= SIGNIFICAND_END,
    ensures
        is_double(m * pow2(e)),
    decreases e,
{
    if m == SIGNIFICAND_END {
        lemma_pow2_unfold((e + 1) as nat);
        assert(canonical(SIGNIFICAND_MIN as int, (e + 1) as nat));
        assert(m * pow2(e) == SIGNIFICAND_MIN * pow2((e + 1) as nat)) by (nonlinear_arith)
            requires
                m == 2 * SIGNIFICAND_MIN,
                pow2((e + 1) as nat) == 2 * pow2(e),
        ;
    } else if e == 0 || m >= SIGNIFICAND_MIN {
        assert(canonical(m, e));
    } else {
        let f = (e - 1) as nat;
        lemma_pow2_unfold(e);
        lemma_is_double(2 * m, f);
        assert(m * pow2(e) == (2 * m) * pow2(f)) by (nonlinear_arith)
            requires
                pow2(e) == 2 * pow2(f),
        ;
    }
}

/// Eight times a floating-point number is one too.
pub proof fn lemma_times_eight(v: int)
    requires
        is_double(v),
    ensures
        is_double(8 * v),
{
    let (m, e) = choose|m: int, e: nat| #[trigger] canonical(m, e) && v == m * pow2(e);
    lemma_eights(m, e);
    lemma_is_double(m, (e + 3) as nat);
}

/// What comes out of rounding is a floating-point number.
pub proof fn lemma_nearest_is_double(n: int, d: int)
    requires
        0 <= n,
        0 < d,
    ensures
        is_double(nearest(n, d)),
{
    let e = lemma_nearest_exponent(n, d);
    lemma_half_even(n, d * pow2(e));
    lemma_is_double(half_even(n, d * pow2(e)), e);
}

/// Seven eighths of a number and one eighth of it, each step rounded, make the
/// number again.
pub proof fn lemma_parts_make_the_whole(a: int)
    requires
        is_double(a),
    ensures
        nearest(8 * nearest(7 * a, 8) + a, 8) == a,
        0 <= a,
{
    let (m, e) = choose|m: int, e: nat| #[trigger] canonical(m, e) && a == m * pow2(e);
    let p = pow2(e) as int;
    lemma_pow2_pos(e);
    assert(0 <= a) by (nonlinear_arith)
        requires
            a == m * p,
            0 <= m,
            0 < p,
    ;
    let (part, t): (int, int) = if e == 0 || 7 * m >= 8 * SIGNIFICAND_MIN {
        let r = half_even(7 * m, 8);
        lemma_half_even(7 * m, 8);
        assert(7 * a == (7 * m) * (1 * p)) by (nonlinear_arith)
            requires
                a == m * p,
        ;
        lemma_nearest_shifted(7 * m, 8, e, 1);
        assert(nearest(7 * a, 8) == r * p);
        assert(8 * (r * p) == 8 * r * p) by (nonlinear_arith);
        (8 * r * p, 8 * r - 7 * m)
    } else {
        let f = (e - 1) as nat;
        let h = pow2(f) as int;
        lemma_pow2_unfold(e);
        lemma_pow2_pos(f);
        let r = half_even(7 * m, 4);
        lemma_half_even(7 * m, 4);
        assert(7 * a == (7 * m) * (2 * h)) by (nonlinear_arith)
            requires
                a == m * p,
                p == 2 * h,
        ;
        lemma_nearest_shifted(7 * m, 4, f, 2);
        assert(nearest(7 * a, 8) == r * h);
        assert(8 * (r * h) == 4 * r * p) by (nonlinear_arith)
            requires
                p == 2 * h,
        ;
        (4 * r * p, 4 * r - 7 * m)
    };
    assert(8 * nearest(7 * a, 8) == part);
    let n = 8 * m + t;
    assert(part + a == n * (1 * p)) by (nonlinear_arith)
        requires
            part == (7 * m + t) * p,
            a == m * p,
            n == 8 * m + t,
    ;
    lemma_half_even_is(n, 8, m);
    lemma_nearest_shifted(n, 8, e, 1);
}

// ---- numbers ----

/// The exponent of one: a whole number of units is a multiple of `2^1074`.
pub const ONE_EXPONENT: u32 = 1074;

/// Numbers up to this are dealt with: `2^64`.
pub open spec fn limit() -> int {
    pow2(1138) as int
}

/// A non-negative floating-point number. Its view counts smallest positive
/// numbers.
#[derive(Debug, Clone, Copy)]
pub struct Double {
    significand: u64,
    exponent: u32,
}

impl View for Double {
    type V = int;

    closed spec fn view(&self) -> int {
        self.significand * pow2(self.exponent as nat)
    }
}

impl Double {
    #[verifier::type_invariant]
    spec fn normal(self) -> bool {
        canonical(self.significand as int, self.exponent as nat)
    }

    /// The number nearest to `n * 2^x / 8` smallest positive ones.
    fn round(n: u128, x: u32) -> (r: Self)
        requires
            x <= 0xFFFF,
        ensures
            r@ == nearest(n * pow2(x as nat), 8),
    {
        let ghost total = n * pow2(x as nat);
        let mut n: u128 = n;
        let mut x: u32 = x;
        while n < 0x100_0000_0000_0000 && x > 0
            invariant
                x <= 0xFFFF,
                n * pow2(x as nat) == total,
            decreases x,
        {
            proof {
                let p = pow2(x as nat) as int;
                let h = pow2((x - 1) as nat) as int;
                lemma_pow2_unfold(x as nat);
                assert(n * p == (n * 2) * h) by (nonlinear_arith)
                    requires
                        p == 2 * h,
                ;
            }
            n = n * 2;
            x -= 1;
        }
        let mut d: u128 = 8;
        let mut e: u32 = 0;
        proof {
            lemma2_to64();
        }
        while n / d >= SIGNIFICAND_END as u128
            invariant
                e <= 200,
                0 < d <= 0x10_0000_0000_0000_0000_0000,
                d == 8 * pow2(e as nat),
                e > 0 ==> n / d >= SIGNIFICAND_MIN,
            decreases n / d,
        {
            proof {
                assert(d <= 0x8_0000_0000_0000_0000_0000) by (nonlinear_arith)
                    requires
                        n / d >= 0x20_0000_0000_0000u128,
                        n <= 0xFFFF_FFFF_FFFF_FFFF_FFFF_FFFF_FFFF_FFFFu128,
                        d > 0,
                ;
                if e >= 100 {
                    lemma2_to64();
                    lemma_pow2_adds(64, 32);
                    assert(pow2(96) == 0x1_0000_0000_0000_0000 * 0x1_0000_0000) by {
                        assert(0x1_0000_0000_0000_0000int * 0x1_0000_0000int
                            == 0x1_0000_0000_0000_0000_0000_0000int);
                    }
                    lemma_pow2_strictly_increases(96, e as nat);
                }
                lemma_pow2_unfold((e + 1) as nat);
                lemma_div_denominator(n as int, d as int, 2);
            }
            d = d * 2;
            e += 1;
        }
        let q: u128 = n / d;
        let rem: u128 = n % d;
        let rounded: u128 = if 2 * rem < d || (2 * rem == d && q % 2 == 0) {
            q
        } else {
            q + 1
        };
        proof {
            let power = (x + e) as nat;
            lemma_pow2_adds(x as nat, e as nat);
            lemma_pow2_pos(x as nat);
            lemma_pow2_pos(power);
            lemma_half_even(n as int, d as int);
            assert(rounded == half_even(n as int, d as int));
            lemma_rounded_at(n as int, x as nat, e as nat);
        }
        if rounded == SIGNIFICAND_END as u128 {
            proof {
                lemma_pow2_unfold((x + e + 1) as nat);
                assert(SIGNIFICAND_END * pow2((x + e) as nat) == SIGNIFICAND_MIN * pow2(
                    (x + e + 1) as nat,
                )) by (nonlinear_arith)
                    requires
                        SIGNIFICAND_END == 2 * SIGNIFICAND_MIN,
                        pow2((x + e + 1) as nat) == 2 * pow2((x + e) as nat),
                ;
            }
            Double { significand: SIGNIFICAND_MIN, exponent: x + e + 1 }
        } else {
            Double { significand: rounded as u64, exponent: x + e }
        }
    }

    /// A whole number.
    pub fn whole(n: u32) -> (r: Self)
        ensures
            r@ == n * pow2(1074),
    {
        proof {
            lemma_is_double(n as int, 1074);
            lemma_nearest_exact(n * pow2(1074), 8);
            lemma_eights(n as int, 1074);
        }
        Self::round(n as u128, 1077)
    }

    /// An eighth of a whole number.
    pub fn eighth_of(n: u64) -> (r: Self)
        ensures
            r@ == nearest(n * pow2(1074), 8),
    {
        Self::round(n as u128, ONE_EXPONENT)
    }

    /// Seven eighths of the number.
    pub fn seven_eighths(self) -> (r: Self)
        requires
            self@ <= limit(),
        ensures
            r@ == nearest(7 * self@, 8),
    {
        proof {
            use_type_invariant(&self);
            lemma_exponent_bound(self.significand as int, self.exponent as nat);
            let m = self.significand as int;
            let p = pow2(self.exponent as nat) as int;
            assert((7 * m) * p == 7 * (m * p)) by (nonlinear_arith);
        }
        Self::round(7 * self.significand as u128, self.exponent)
    }

    /// The sum of two numbers.
    pub fn plus(self, other: Self) -> (r: Self)
        requires
            self@ <= limit(),
            other@ <= limit(),
        ensures
            r@ == nearest(self@ + other@, 1),
    {
        if self.exponent >= other.exponent {
            Self::sum(self, other)
        } else {
            Self::sum(other, self)
        }
    }

    /// The sum of two numbers, the one with the larger exponent first.
    fn sum(a: Self, b: Self) -> (r: Self)
        requires
            a.exponent >= b.exponent,
            a@ <= limit(),
        ensures
            r@ == nearest(a@ + b@, 1),
    {
        proof {
            use_type_invariant(&a);
            use_type_invariant(&b);
            lemma_exponent_bound(a.significand as int, a.exponent as nat);
        }
        let gap: u32 = a.exponent - b.exponent;
        if gap > 64 {
            proof {
                lemma_far_apart(
                    a.significand as int,
                    a.exponent as nat,
                    b.significand as int,
                    b.exponent as nat,
                );
            }
            return a;
        }
        let mut aligned: u128 = a.significand as u128;
        let mut k: u32 = 0;
        proof {
            lemma2_to64();
        }
        while k < gap
            invariant
                k <= gap <= 64,
                a.significand < SIGNIFICAND_END,
                aligned == a.significand * pow2(k as nat),
                aligned <= 0x20_0000_0000_0000 * pow2(k as nat),
            decreases gap - k,
        {
            proof {
                lemma2_to64();
                if k < 64 {
                    lemma_pow2_strictly_increases(k as nat, 64);
                }
                lemma_pow2_unfold((k + 1) as nat);
                assert(a.significand * pow2((k + 1) as nat) == 2 * (a.significand * pow2(
                    k as nat,
                ))) by (nonlinear_arith)
                    requires
                        pow2((k + 1) as nat) == 2 * pow2(k as nat),
                ;
            }
            aligned = aligned * 2;
            k += 1;
        }
        proof {
            lemma2_to64();
            if gap < 64 {
                lemma_pow2_strictly_increases(gap as nat, 64);
            }
            let m = a.significand as int;
            let n = b.significand as int;
            let g = pow2(gap as nat) as int;
            let p = pow2(b.exponent as nat) as int;
            lemma_pow2_adds(gap as nat, b.exponent as nat);
            assert((m * g + n) * p == m * (g * p) + n * p) by (nonlinear_arith);
            lemma_eights(aligned + b.significand, b.exponent as nat);
            assert(0 <= a@ + b@) by (nonlinear_arith)
                requires
                    a@ + b@ == (m * g + n) * p,
                    0 <= m,
                    0 <= n,
                    0 <= g,
                    0 <= p,
            ;
            lemma_nearest_scaled(a@ + b@, 1, 8);
        }
        Self::round(aligned + b.significand as u128, b.exponent + 3)
    }

    /// The nearest whole number, from halfway the larger one.
    pub fn rounded(self) -> (r: u128)
        requires
            self@ <= limit(),
        ensures
            r == (self@ + pow2(1073)) / (pow2(1074) as int),
            r <= 0x1_0000_0000_0000_0000,
    {
        proof {
            use_type_invariant(&self);
            lemma_exponent_bound(self.significand as int, self.exponent as nat);
            lemma_rounded_bound(self@);
        }
        let m: u128 = self.significand as u128;
        if self.exponent >= ONE_EXPONENT {
            let up: u32 = self.exponent - ONE_EXPONENT;
            let mut whole: u128 = m;
            let mut k: u32 = 0;
            proof {
                lemma2_to64();
            }
            while k < up
                invariant
                    k <= up <= 64,
                    m < SIGNIFICAND_END,
                    whole == m * pow2(k as nat),
                    whole <= 0x20_0000_0000_0000 * pow2(k as nat),
                decreases up - k,
            {
                proof {
                    lemma2_to64();
                    if k < 64 {
                        lemma_pow2_strictly_increases(k as nat, 64);
                    }
                    lemma_pow2_unfold((k + 1) as nat);
                    assert(m * pow2((k + 1) as nat) == 2 * (m * pow2(k as nat))) by (nonlinear_arith)
                        requires
                            pow2((k + 1) as nat) == 2 * pow2(k as nat),
                    ;
                }
                whole = whole * 2;
                k += 1;
            }
            proof {
                lemma_whole_rounded(m as int, up as nat);
            }
            whole
        } else {
            let down: u32 = ONE_EXPONENT - self.exponent;
            proof {
                lemma_fraction_rounded(m as int, down as nat);
            }
            if down > 54 {
                return 0;
            }
            let mut half: u128 = 1;
            let mut k: u32 = 1;
            proof {
                lemma2_to64();
            }
            while k < down
                invariant
                    1 <= k <= down <= 54,
                    half == pow2((k - 1) as nat),
                decreases down - k,
            {
                proof {
                    lemma2_to64();
                    lemma_pow2_strictly_increases((k - 1) as nat, 64);
                    lemma_pow2_unfold(k as nat);
                }
                half = half * 2;
                k += 1;
            }
            proof {
                lemma2_to64();
                lemma_pow2_strictly_increases((down - 1) as nat, 64);
                lemma_pow2_unfold(down as nat);
                lemma_pow2_pos((down - 1) as nat);
            }
            (m + half) / (2 * half)
        }
    }
}

/// A number that is not too large has no large exponent.
proof fn lemma_exponent_bound(m: int, e: nat)
    requires
        canonical(m, e),
        m * pow2(e) <= limit(),
    ensures
        e <= 1138,
{
    if e > 1138 {
        lemma_pow2_strictly_increases(1138, e);
        assert(m * pow2(e) >= pow2(e)) by (nonlinear_arith)
            requires
                m >= 1,
                pow2(e) >= 0,
        ;
    }
}

/// A number within the limit is rounded to one within it.
proof fn lemma_rounded_bound(v: int)
    requires
        v <= limit(),
    ensures
        (v + pow2(1073)) / (pow2(1074) as int) <= 0x1_0000_0000_0000_0000,
{
    let p = pow2(1074) as int;
    lemma2_to64();
    lemma_pow2_adds(64, 1074);
    lemma_pow2_unfold(1074);
    lemma_pow2_pos(1073);
    assert(limit() == 0x1_0000_0000_0000_0000 * p);
    lemma_fundamental_div_mod(v + pow2(1073), p);
    let q = (v + pow2(1073)) / p;
    assert(0 <= (v + pow2(1073)) % p) by (nonlinear_arith)
        requires
            0 < p,
    ;
    assert(q <= 0x1_0000_0000_0000_0000) by (nonlinear_arith)
        requires
            p * q <= v + pow2(1073),
            v <= 0x1_0000_0000_0000_0000 * p,
            p == 2 * pow2(1073),
            0 < pow2(1073),
    ;
}

proof fn lemma_eights(n: int, e: nat)
    ensures
        n * pow2((e + 3) as nat) == (n * pow2(e)) * 8,
{
    lemma2_to64();
    lemma_pow2_adds(e, 3);
    assert(n * (pow2(e) * 8) == (n * pow2(e)) * 8) by (nonlinear_arith);
}

proof fn lemma_rounded_at(n: int, x: nat, e: nat)
    requires
        0 <= n,
        x > 0 ==> n >= 0x100_0000_0000_0000,
        n / (8 * pow2(e) as int) < SIGNIFICAND_END,
        e > 0 ==> n / (8 * pow2(e) as int) >= SIGNIFICAND_MIN,
    ensures
        nearest(n * pow2(x), 8) == half_even(n, 8 * pow2(e) as int) * pow2((x + e) as nat),
{
    let p = pow2(x) as int;
    let d = 8 * pow2(e) as int;
    lemma2_to64();
    lemma_pow2_pos(x);
    lemma_pow2_pos(e);
    lemma_pow2_adds(x, e);
    assert(8 * (pow2(x) * pow2(e)) == d * p) by (nonlinear_arith)
        requires
            d == 8 * pow2(e),
            p == pow2(x),
    ;
    assert(0 <= n * p) by (nonlinear_arith)
        requires
            0 <= n,
            0 < p,
    ;
    lemma_div_scaled(n, d, p);
    lemma_half_even_scaled(n, d, p);
    lemma_nearest_at(n * p, 8, (x + e) as nat);
}

/// A number far below the last bit of another does not change it.
proof fn lemma_far_apart(m: int, e: nat, n: int, f: nat)
    requires
        canonical(m, e),
        canonical(n, f),
        f + 64 < e,
    ensures
        nearest(m * pow2(e) + n * pow2(f), 1) == m * pow2(e),
{
    let p = pow2(e) as int;
    let c = n * pow2(f);
    let v = m * p + c;
    lemma2_to64();
    lemma_pow2_pos(f);
    lemma_pow2_adds(64, f);
    lemma_pow2_strictly_increases((64 + f) as nat, e);
    assert(0 <= c && 4 * c < p) by (nonlinear_arith)
        requires
            c == n * pow2(f),
            0 <= n < 0x20_0000_0000_0000,
            0 < pow2(f),
            p > 0x1_0000_0000_0000_0000 * pow2(f),
    ;
    assert(0 <= v) by (nonlinear_arith)
        requires
            v == m * p + c,
            0 <= m,
            0 < p,
            0 <= c,
    ;
    lemma_fundamental_div_mod_converse(v, p, m, c);
    assert(1 * p == p);
    lemma_nearest_at(v, 1, e);
    lemma_half_even_is(v, p, m);
}

proof fn lemma_whole_rounded(m: int, up: nat)
    requires
        0 <= m,
    ensures
        (m * pow2((1074 + up) as nat) + pow2(1073)) / (pow2(1074) as int) == m * pow2(up),
{
    let h = pow2(1073) as int;
    let p = pow2(1074) as int;
    let w = m * pow2(up);
    lemma_pow2_unfold(1074);
    lemma_pow2_pos(1073);
    lemma_pow2_adds(1074, up);
    assert(m * (p * pow2(up)) == w * p) by (nonlinear_arith)
        requires
            w == m * pow2(up),
    ;
    lemma_fundamental_div_mod_converse(w * p + h, p, w, h);
}

proof fn lemma_fraction_rounded(m: int, down: nat)
    requires
        0 <= m < SIGNIFICAND_END,
        1 <= down <= 1074,
    ensures
        (m * pow2((1074 - down) as nat) + pow2(1073)) / (pow2(1074) as int) == (m + pow2(
            (down - 1) as nat,
        )) / (pow2(down) as int),
        down > 54 ==> (m + pow2((down - 1) as nat)) / (pow2(down) as int) == 0,
{
    let k = pow2((1074 - down) as nat) as int;
    let half = pow2((down - 1) as nat) as int;
    let whole = pow2(down) as int;
    lemma_pow2_pos((1074 - down) as nat);
    lemma_pow2_pos((down - 1) as nat);
    lemma_pow2_unfold(down);
    lemma_pow2_adds((1074 - down) as nat, down);
    lemma_pow2_adds((1074 - down) as nat, (down - 1) as nat);
    assert(m * k + k * half == (m + half) * k && k * whole == whole * k) by (nonlinear_arith);
    lemma_div_scaled(m + half, whole, k);
    if down > 54 {
        lemma2_to64();
        lemma_pow2_adds(32, 21);
        lemma_pow2_strictly_increases(53, (down - 1) as nat);
        lemma_fundamental_div_mod_converse(m + half, whole, 0, m + half);
    }
}

/// Rounding a quotient changes it by at most one part in 2^53, or by half of the smallest
/// positive number.
pub proof fn law_rounding_is_close(n: int, d: int)
    requires
        0 <= n,
        0 < d,
    ensures
        -(n + 0x10_0000_0000_0000 * d) <= 0x20_0000_0000_0000 * (nearest(n, d) * d - n) <= n
            + 0x10_0000_0000_0000 * d,
        0 <= nearest(n, d),
{
    let e = lemma_nearest_exponent(n, d);
    let p = pow2(e) as int;
    let whole = d * p;
    lemma_half_even(n, whole);
    let r = half_even(n, whole);
    assert(nearest(n, d) * d == r * whole) by (nonlinear_arith)
        requires
            nearest(n, d) == r * p,
            whole == d * p,
    ;
    assert(0 <= r * p) by (nonlinear_arith)
        requires
            0 <= r,
            0 < p,
    ;
    if e == 0 {
        lemma2_to64();
        assert(whole == d) by (nonlinear_arith)
            requires
                whole == d * p,
                p == 1,
        ;
    } else {
        let q = n / whole;
        assert(0x10_0000_0000_0000 * whole <= n) by (nonlinear_arith)
            requires
                0x10_0000_0000_0000 <= q,
                q * whole <= n,
                0 < whole,
        ;
    }
}

} // verus!
