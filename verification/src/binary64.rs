//! Real numbers in the binary64 format, held as their 64-bit patterns.
//!
//! The format is described by the integer `scaled(m)`: the magnitude with the
//! pattern `m`, counted in units of the smallest positive magnitude (two to the
//! power -1074). Patterns of magnitudes are ordered as the magnitudes are, so
//! neighbouring patterns are neighbouring numbers.

use vstd::arithmetic::power2;
use vstd::prelude::*;

verus! {

/// A binary64 number: sign bit, eleven exponent bits, fifty-two fraction bits.
#[derive(Debug, Clone, Copy)]
pub struct Real(pub u64);

/// Two to the power 52: the number of patterns that share an exponent.
pub const BINADE: u64 = 0x0010_0000_0000_0000;

/// The pattern of positive infinity.
pub const INFINITY: u64 = 0x7ff0_0000_0000_0000;

/// The sign bit.
pub const SIGN: u64 = 0x8000_0000_0000_0000;

impl Real {
    /// Whether the sign bit is set.
    pub open spec fn negative(self) -> bool {
        self.0 >= SIGN
    }

    /// The pattern without its sign bit.
    pub open spec fn magnitude(self) -> nat {
        if self.0 >= SIGN {
            (self.0 - SIGN) as nat
        } else {
            self.0 as nat
        }
    }

    /// Whether the pattern stands for no number.
    pub open spec fn is_nan(self) -> bool {
        self.magnitude() > INFINITY
    }

    /// The same number: zeros of either sign are the same, and a pattern that
    /// stands for no number equals nothing.
    pub open spec fn equals(self, other: Real) -> bool {
        &&& !self.is_nan()
        &&& self.0 == other.0 || (self.magnitude() == 0 && other.magnitude() == 0)
    }
}

impl vstd::std_specs::cmp::PartialEqSpecImpl for Real {
    open spec fn obeys_eq_spec() -> bool {
        true
    }

    open spec fn eq_spec(&self, other: &Real) -> bool {
        self.equals(*other)
    }
}

impl PartialEq for Real {
    fn eq(&self, other: &Real) -> (r: bool) {
        let magnitude: u64 = if self.0 >= SIGN {
            self.0 - SIGN
        } else {
            self.0
        };
        magnitude <= INFINITY && (self.0 == other.0 || (magnitude == 0 && (other.0 == 0
            || other.0 == SIGN)))
    }
}

/// The magnitude with the pattern `m`, in units of two to the power -1074.
pub open spec fn scaled(m: nat) -> nat {
    if m < BINADE {
        m
    } else {
        (BINADE + m % (BINADE as nat)) as nat * power2::pow2((m / (BINADE as nat) - 1) as nat)
    }
}

/// The quotient `num / den`, counted in units of two to the power -1074, is
/// nearer to the magnitude with the pattern `m` than to any other, or lies
/// halfway to a neighbour and `m` is even. From halfway past the largest
/// number on, the nearest pattern is that of infinity.
pub open spec fn nearest(m: nat, num: nat, den: nat) -> bool {
    &&& m <= INFINITY
    &&& m > 0 ==> above(2 * num, (scaled((m - 1) as nat) + scaled(m)) * den, m)
    &&& m < INFINITY ==> above((scaled(m) + scaled(m + 1)) * den, 2 * num, m)
}

/// `a` exceeds `b`, or equals it where `m` is even.
pub open spec fn above(a: nat, b: nat, m: nat) -> bool {
    a > b || (a == b && m % 2 == 0)
}

/// The pattern of the magnitude nearest to `num / den` units.
pub open spec fn rounded(num: nat, den: nat) -> nat {
    choose|m: nat| nearest(m, num, den)
}

/// The real number nearest to an integer, ties going to the even pattern.
pub open spec fn real_of_int(v: int) -> Real {
    if v < 0 {
        Real((SIGN + rounded((-v) as nat * power2::pow2(1074), 1)) as u64)
    } else {
        Real(rounded(v as nat * power2::pow2(1074), 1) as u64)
    }
}

/// The real number as an index: the part before the point, zero for negative
/// numbers and for patterns that stand for no number, and never more than
/// `usize::MAX`.
pub open spec fn real_to_index(r: Real) -> nat {
    if r.negative() || r.is_nan() {
        0
    } else if r.magnitude() == INFINITY || scaled(r.magnitude()) / power2::pow2(1074) > usize::MAX {
        usize::MAX as nat
    } else {
        scaled(r.magnitude()) / power2::pow2(1074)
    }
}

/// The real number `r / 1000`, rounded to the nearest. Zeros, infinities and
/// patterns that stand for no number stay as they are.
pub open spec fn real_thousandth(r: Real) -> Real {
    if r.magnitude() >= INFINITY {
        r
    } else if r.negative() {
        Real((SIGN + rounded(scaled(r.magnitude()), 1000)) as u64)
    } else {
        Real(rounded(scaled(r.magnitude()), 1000) as u64)
    }
}

/// Larger patterns stand for larger magnitudes.
pub proof fn lemma_scaled_increases(a: nat, b: nat)
    requires
        a < b,
    ensures
        scaled(a) < scaled(b),
    decreases b - a,
{
    if a + 1 < b {
        lemma_scaled_increases(a, (b - 1) as nat);
        lemma_scaled_increases((b - 1) as nat, b);
    } else {
        let p = BINADE as nat;
        if b >= p {
            let e = b / p;
            power2::lemma_pow2_pos((e - 1) as nat);
            if a >= p {
                if b % p != 0 {
                    assert(a / p == e && a % p == b % p - 1) by (nonlinear_arith)
                        requires
                            a + 1 == b,
                            b % p != 0,
                            e == b / p,
                            p == 0x0010_0000_0000_0000,
                    ;
                    let (x, y, u) = (p + a % p, p + b % p, power2::pow2((e - 1) as nat));
                    assert(x * u < y * u) by (nonlinear_arith)
                        requires
                            x < y,
                            u > 0,
                    ;
                } else {
                    assert(a / p == e - 1 && a % p == p - 1) by (nonlinear_arith)
                        requires
                            a + 1 == b,
                            b % p == 0,
                            e == b / p,
                            p == 0x0010_0000_0000_0000,
                    ;
                    power2::lemma_pow2_unfold((e - 1) as nat);
                    power2::lemma_pow2_pos((e - 2) as nat);
                    assert((p + a % p) * power2::pow2((e - 2) as nat) < (p + b % p) * power2::pow2((e - 1) as nat))
                        by (nonlinear_arith)
                        requires
                            a % p == p - 1,
                            b % p == 0,
                            power2::pow2((e - 1) as nat) == 2 * power2::pow2((e - 2) as nat),
                            power2::pow2((e - 2) as nat) > 0,
                            p > 0,
                    ;
                }
            } else {
                assert(b == p);
                assert(b % p == 0 && e == 1);
                power2::lemma_pow2_unfold(1);
                power2::lemma2_to64();
                assert(power2::pow2((e - 1) as nat) == 1);
                assert(p * 1 == p);
            }
        }
    }
}

/// At most one pattern is nearest to a quotient.
pub proof fn law_nearest_is_unique(m1: nat, m2: nat, num: nat, den: nat)
    requires
        den > 0,
        nearest(m1, num, den),
        nearest(m2, num, den),
    ensures
        m1 == m2,
{
    if m1 != m2 {
        let lo = if m1 < m2 {
            m1
        } else {
            m2
        };
        let hi = if m1 < m2 {
            m2
        } else {
            m1
        };
        let upper = scaled(lo) + scaled(lo + 1);
        let lower = scaled((hi - 1) as nat) + scaled(hi);
        if lo + 1 < hi {
            lemma_scaled_increases(lo, (hi - 1) as nat);
            lemma_scaled_increases(lo + 1, hi);
            assert(upper * den < lower * den) by (nonlinear_arith)
                requires
                    upper < lower,
                    den > 0,
            ;
        } else {
            assert(upper == lower);
        }
    }
}

/// A pattern that is nearest to a quotient is the rounded quotient.
proof fn lemma_rounded(m: nat, num: nat, den: nat)
    requires
        den > 0,
        nearest(m, num, den),
    ensures
        rounded(num, den) == m,
{
    law_nearest_is_unique(rounded(num, den), m, num, den);
}

/// On one exponent the magnitudes are the multiples of one unit.
proof fn lemma_grid(e: nat, q: nat)
    requires
        q <= 2 * BINADE,
        e == 0 || q >= BINADE,
    ensures
        scaled(e * BINADE as nat + q) == q * power2::pow2(e),
{
    let p = BINADE as nat;
    let m = e * p + q;
    assert(power2::pow2(0) == 1) by {
        power2::lemma2_to64();
    }
    if q < p {
        assert(m == q);
    } else if q < 2 * p {
        assert(m / p == e + 1 && m % p == q - p) by (nonlinear_arith)
            requires
                m == e * p + q,
                p <= q < 2 * p,
        ;
        assert(m >= p);
    } else {
        assert(m / p == e + 2 && m % p == 0) by (nonlinear_arith)
            requires
                m == e * p + 2 * p,
                p > 0,
        ;
        assert(m >= p);
        power2::lemma_pow2_unfold(e + 1);
        assert(p * power2::pow2(e + 1) == (2 * p) * power2::pow2(e)) by (nonlinear_arith)
            requires
                power2::pow2(e + 1) == 2 * power2::pow2(e),
        ;
    }
}

/// The nearest multiple of `d` below or above `q * d + r`, counted in `d`.
pub open spec fn half_even(q: nat, r: nat, d: nat) -> nat {
    if 2 * r > d || (2 * r == d && q % 2 == 1) {
        q + 1
    } else {
        q
    }
}

/// A comparison survives the division of both sides by `d * s`.
proof fn lemma_cancel(num: nat, den: nat, c: nat, a: nat, d: nat, u: nat, strict: bool)
    requires
        d > 0,
        u > 0,
        den > 0,
        num * d == den * u * a,
        strict ==> 2 * a < c * d,
        !strict ==> 2 * a <= c * d,
    ensures
        strict ==> 2 * num < c * u * den,
        !strict ==> 2 * num <= c * u * den,
        2 * a == c * d ==> 2 * num == c * u * den,
{
    let k = den * u;
    assert(k > 0) by (nonlinear_arith)
        requires
            den > 0,
            u > 0,
            k == den * u,
    ;
    assert((2 * num) * d == k * (2 * a)) by (nonlinear_arith)
        requires
            num * d == k * a,
    ;
    assert(c * u * den * d == k * (c * d)) by (nonlinear_arith)
        requires
            k == den * u,
    ;
    let x = 2 * num;
    let y = c * u * den;
    assert(x * d == k * (2 * a) && y * d == k * (c * d));
    if strict {
        assert(k * (2 * a) < k * (c * d)) by (nonlinear_arith)
            requires
                k > 0,
                2 * a < c * d,
        ;
        assert(x < y) by (nonlinear_arith)
            requires
                x * d < y * d,
                d > 0,
        ;
    } else {
        assert(k * (2 * a) <= k * (c * d)) by (nonlinear_arith)
            requires
                k > 0,
                2 * a <= c * d,
        ;
        assert(x <= y) by (nonlinear_arith)
            requires
                x * d <= y * d,
                d > 0,
        ;
        if 2 * a == c * d {
            assert(x == y) by (nonlinear_arith)
                requires
                    x * d == y * d,
                    d > 0,
            ;
        }
    }
}

/// The mirror image of `lemma_cancel`.
proof fn lemma_cancel_below(num: nat, den: nat, c: nat, a: nat, d: nat, u: nat)
    requires
        d > 0,
        u > 0,
        den > 0,
        num * d == den * u * a,
        2 * a >= c * d,
    ensures
        2 * num >= c * u * den,
        2 * a > c * d ==> 2 * num > c * u * den,
{
    let k = den * u;
    let x = 2 * num;
    let y = c * u * den;
    assert(k > 0) by (nonlinear_arith)
        requires
            den > 0,
            u > 0,
            k == den * u,
    ;
    assert(x * d == k * (2 * a)) by (nonlinear_arith)
        requires
            x == 2 * num,
            num * d == k * a,
    ;
    assert(y * d == k * (c * d)) by (nonlinear_arith)
        requires
            y == c * u * den,
            k == den * u,
    ;
    assert(k * (2 * a) >= k * (c * d)) by (nonlinear_arith)
        requires
            k > 0,
            2 * a >= c * d,
    ;
    assert(x >= y) by (nonlinear_arith)
        requires
            x * d >= y * d,
            d > 0,
    ;
    if 2 * a > c * d {
        assert(k * (2 * a) > k * (c * d)) by (nonlinear_arith)
            requires
                k > 0,
                2 * a > c * d,
        ;
        assert(x > y) by (nonlinear_arith)
            requires
                x * d > y * d,
                d > 0,
        ;
    }
}

/// Rounding on the grid of one exponent gives the nearest pattern.
proof fn lemma_round(e: nat, q: nat, r: nat, d: nat, num: nat, den: nat)
    requires
        den > 0,
        r < d,
        q < 2 * BINADE,
        e == 0 || q >= BINADE,
        num * d == den * power2::pow2(e) * (q * d + r),
        e * BINADE as nat + half_even(q, r, d) <= INFINITY,
    ensures
        nearest(e * BINADE as nat + half_even(q, r, d), num, den),
{
    let p = BINADE as nat;
    let h = half_even(q, r, d);
    let m = e * p + h;
    let u = power2::pow2(e);
    let a = q * d + r;
    power2::lemma_pow2_pos(e);
    lemma_grid(e, h);
    assert(m % 2 == h % 2) by (nonlinear_arith)
        requires
            m == e * p + h,
            p == 0x0010_0000_0000_0000,
    ;
    // Not above the midpoint to the next pattern.
    if m < INFINITY {
        let c = 2 * h + 1;
        assert(2 * a <= c * d && (2 * a == c * d ==> h == q && 2 * r == d)) by (nonlinear_arith)
            requires
                a == q * d + r,
                c == 2 * h + 1,
                r < d,
                (h == q && 2 * r <= d) || h == q + 1,
        ;
        lemma_cancel(num, den, c, a, d, u, 2 * a < c * d);
        if h < 2 * p {
            lemma_grid(e, h + 1);
            assert(scaled(m) + scaled(m + 1) == c * u) by (nonlinear_arith)
                requires
                    scaled(m) == h * u,
                    scaled(m + 1) == (h + 1) * u,
                    c == 2 * h + 1,
            ;
        } else {
            assert(h == q + 1);
            assert(2 * a < c * d) by (nonlinear_arith)
                requires
                    a == q * d + r,
                    c == 2 * (q + 1) + 1,
                    r < d,
            ;
            assert((e + 1) * p + (p + 1) == m + 1) by (nonlinear_arith)
                requires
                    m == e * p + 2 * p,
            ;
            lemma_grid(e + 1, p + 1);
            power2::lemma_pow2_unfold(e + 1);
            assert(scaled(m) + scaled(m + 1) > c * u) by (nonlinear_arith)
                requires
                    scaled(m) == h * u,
                    scaled(m + 1) == (p + 1) * (2 * u),
                    h == 2 * p,
                    c == 2 * h + 1,
                    u > 0,
            ;
            assert((scaled(m) + scaled(m + 1)) * den > c * u * den) by (nonlinear_arith)
                requires
                    scaled(m) + scaled(m + 1) > c * u,
                    den > 0,
            ;
        }
        assert(above((scaled(m) + scaled(m + 1)) * den, 2 * num, m));
    }
    // Not below the midpoint to the pattern before.
    if m > 0 {
        if h > p || e == 0 {
            assert(h > 0);
            let c = (2 * h - 1) as nat;
            assert(2 * a >= c * d && (2 * a == c * d ==> h == q + 1 && 2 * r == d))
                by (nonlinear_arith)
                requires
                    a == q * d + r,
                    c == 2 * h - 1,
                    d > 0,
                    h == q || (h == q + 1 && 2 * r >= d),
            ;
            lemma_cancel_below(num, den, c, a, d, u);
            if 2 * a == c * d {
                lemma_cancel(num, den, c, a, d, u, false);
            }
            lemma_grid(e, (h - 1) as nat);
            assert((e * p + (h - 1)) as nat == (m - 1) as nat);
            assert(scaled((m - 1) as nat) + scaled(m) == c * u) by (nonlinear_arith)
                requires
                    scaled(m) == h * u,
                    scaled((m - 1) as nat) == (h - 1) * u,
                    c == 2 * h - 1,
            ;
            assert(above(2 * num, (scaled((m - 1) as nat) + scaled(m)) * den, m));
        } else {
            assert(h == p && q == p);
            let c = 2 * h;
            assert(2 * a >= c * d) by (nonlinear_arith)
                requires
                    a == q * d + r,
                    c == 2 * q,
            ;
            lemma_cancel_below(num, den, c, a, d, u);
            lemma_scaled_increases((m - 1) as nat, m);
            assert(scaled((m - 1) as nat) + scaled(m) < c * u) by (nonlinear_arith)
                requires
                    scaled(m) == h * u,
                    scaled((m - 1) as nat) < scaled(m),
                    c == 2 * h,
            ;
            assert((scaled((m - 1) as nat) + scaled(m)) * den < c * u * den) by (nonlinear_arith)
                requires
                    scaled((m - 1) as nat) + scaled(m) < c * u,
                    den > 0,
            ;
        }
    }
}

/// `q` rounded up where the remainder asks for it.
fn round_half_even(q: u64, r: u64, d: u64) -> (h: u64)
    requires
        r < d,
        d <= 4096,
        q < 2 * BINADE,
    ensures
        h == half_even(q as nat, r as nat, d as nat),
        h <= 2 * BINADE,
{
    if 2 * r > d || (2 * r == d && q % 2 == 1) {
        q + 1
    } else {
        q
    }
}

/// The pattern of an integer of at most fifty-three bits.
proof fn small_pattern(n: nat) -> (m: nat)
    requires
        n < 2 * BINADE,
    ensures
        m < INFINITY,
        nearest(m, n * power2::pow2(1074), 1),
        scaled(m) == n * power2::pow2(1074),
{
    let u = power2::pow2(1074);
    if n == 0 {
        assert(0 * u == 0) by (nonlinear_arith);
        assert(scaled(0) == 0 && scaled(1) == 1);
        0
    } else {
        power2::lemma2_to64();
        power2::lemma2_to64_rest();
        assert(1 * n == n);
        small_pattern_from(n, n, 1074)
    }
}

proof fn small_pattern_from(n: nat, q: nat, e: nat) -> (m: nat)
    requires
        0 < q < 2 * BINADE,
        n * power2::pow2(1074) == q * power2::pow2(e),
        1022 <= e <= 1074,
        q >= power2::pow2((1074 - e) as nat),
        power2::pow2(52) == BINADE,
    ensures
        m < INFINITY,
        nearest(m, n * power2::pow2(1074), 1),
        scaled(m) == n * power2::pow2(1074),
    decreases 2 * BINADE - q,
{
    let total = n * power2::pow2(1074);
    if q < BINADE {
        power2::lemma_pow2_unfold(e);
        power2::lemma_pow2_unfold((1075 - e) as nat);
        assert(total == (2 * q) * power2::pow2((e - 1) as nat)) by (nonlinear_arith)
            requires
                total == q * power2::pow2(e),
                power2::pow2(e) == 2 * power2::pow2((e - 1) as nat),
        ;
        if e <= 1022 {
            assert(power2::pow2((1074 - e) as nat) == power2::pow2(52));
        }
        small_pattern_from(n, 2 * q, (e - 1) as nat)
    } else {
        assert(total * 1 == 1 * power2::pow2(e) * (q * 1 + 0)) by (nonlinear_arith)
            requires
                total == q * power2::pow2(e),
        ;
        lemma_grid(e, q);
        lemma_round(e, q, 0, 1, total, 1);
        e * BINADE as nat + q
    }
}

/// The pattern of the real number nearest to a natural number.
fn pattern_of(n: u64) -> (m: u64)
    ensures
        m < INFINITY,
        nearest(m as nat, n as nat * power2::pow2(1074), 1),
        m == rounded(n as nat * power2::pow2(1074), 1),
{
    if n == 0 {
        proof {
            assert(scaled(0) == 0 && scaled(1) == 1);
            assert(n as nat * power2::pow2(1074) == 0) by (nonlinear_arith)
                requires
                    n == 0,
            ;
            lemma_rounded(0, 0, 1);
        }
        return 0;
    }
    let ghost total = n as nat * power2::pow2(1074);
    if n < 2 * BINADE {
        let mut q: u64 = n;
        let mut e: u64 = 1074;
        proof {
            power2::lemma2_to64();
            power2::lemma2_to64_rest();
        }
        while q < BINADE
            invariant
                0 < q < 2 * BINADE,
                total == q as nat * power2::pow2(e as nat),
                1022 <= e <= 1074,
                q as nat >= power2::pow2((1074 - e) as nat),
                power2::pow2(52) == BINADE,
            decreases 2 * BINADE - q,
        {
            proof {
                power2::lemma_pow2_unfold(e as nat);
                power2::lemma_pow2_unfold((1075 - e) as nat);
                assert(total == (2 * q) as nat * power2::pow2((e - 1) as nat)) by (nonlinear_arith)
                    requires
                        total == q as nat * power2::pow2(e as nat),
                        power2::pow2(e as nat) == 2 * power2::pow2((e - 1) as nat),
                ;
                if e <= 1022 {
                    assert(power2::pow2((1074 - e) as nat) >= power2::pow2(52));
                }
            }
            q = 2 * q;
            e = e - 1;
        }
        proof {
            assert(total * 1 == 1 * power2::pow2(e as nat) * (q as nat * 1 + 0)) by (nonlinear_arith)
                requires
                    total == q as nat * power2::pow2(e as nat),
            ;
            lemma_round(e as nat, q as nat, 0, 1, total, 1);
            lemma_rounded(e as nat * BINADE as nat + q as nat, total, 1);
        }
        e * BINADE + q
    } else {
        let mut q: u64 = n;
        let mut r: u64 = 0;
        let mut d: u64 = 1;
        let mut s: u64 = 0;
        proof {
            power2::lemma2_to64();
        }
        while q >= 2 * BINADE
            invariant
                n == q * d + r,
                r < d,
                d == power2::pow2(s as nat),
                s <= 11,
                q >= BINADE,
                d as nat * q as nat <= n,
                n <= u64::MAX,
            decreases q,
        {
            let ghost q0 = q as nat;
            let ghost d0 = d as nat;
            let ghost r0 = r as nat;
            proof {
                power2::lemma_pow2_unfold((s + 1) as nat);
                assert(d < 2048) by (nonlinear_arith)
                    requires
                        d as nat * q as nat <= n,
                        n <= 0xffff_ffff_ffff_ffff,
                        q >= 0x0020_0000_0000_0000,
                ;
                if s == 11 {
                    power2::lemma2_to64();
                }
                assert((q % 2) * d <= d) by (nonlinear_arith)
                    requires
                        q % 2 <= 1,
                ;
            }
            r = r + (q % 2) * d;
            d = 2 * d;
            q = q / 2;
            s = s + 1;
            proof {
                assert(q0 * d0 + r0 == q * d + r && d as nat * q as nat <= n) by (nonlinear_arith)
                    requires
                        d == 2 * d0,
                        q0 == 2 * q + q0 % 2,
                        r == r0 + (q0 % 2) * d0,
                        q0 * d0 + r0 == n,
                        d0 * q0 <= n,
                        q0 % 2 >= 0,
                ;
                assert(r < d) by (nonlinear_arith)
                    requires
                        d == 2 * d0,
                        r == r0 + (q0 % 2) * d0,
                        r0 < d0,
                        q0 % 2 <= 1,
                ;
            }
        }
        proof {
            power2::lemma2_to64();
            assert(d <= 2048) by {
                if s < 11 {
                    power2::lemma_pow2_strictly_increases(s as nat, 11);
                }
            }
        }
        let h: u64 = round_half_even(q, r, d);
        proof {
            power2::lemma_pow2_adds(1074, s as nat);
            let e = 1074 + s as nat;
            assert(total * d as nat == 1 * power2::pow2(e) * (q as nat * d as nat + r as nat))
                by (nonlinear_arith)
                requires
                    total == n as nat * power2::pow2(1074),
                    n == q * d + r,
                    power2::pow2(e) == power2::pow2(1074) * power2::pow2(s as nat),
                    d == power2::pow2(s as nat),
            ;
            lemma_round(e, q as nat, r as nat, d as nat, total, 1);
            lemma_rounded(e * BINADE as nat + h as nat, total, 1);
        }
        (1074 + s) * BINADE + h
    }
}

impl Real {
    /// The real number nearest to `n`.
    pub fn from_u64(n: u64) -> (r: Real)
        ensures
            r == real_of_int(n as int),
    {
        Real(pattern_of(n))
    }

    /// The real number nearest to `v`.
    pub fn from_i64(v: i64) -> (r: Real)
        ensures
            r == real_of_int(v as int),
    {
        if v < 0 {
            let n: u64 = if v == i64::MIN {
                SIGN
            } else {
                (-v) as u64
            };
            Real(SIGN + pattern_of(n))
        } else {
            Real(pattern_of(v as u64))
        }
    }

    /// The real number divided by one thousand.
    pub fn thousandth(self) -> (q: Real)
        ensures
            q == real_thousandth(self),
    {
        let negative: bool = self.0 >= SIGN;
        let m: u64 = if negative {
            self.0 - SIGN
        } else {
            self.0
        };
        if m >= INFINITY {
            return self;
        }
        let t: u64 = if m < BINADE {
            0
        } else {
            m / BINADE - 1
        };
        let sig: u64 = if m < BINADE {
            m
        } else {
            BINADE + m % BINADE
        };
        let j: u64 = if t < 10 {
            t
        } else if sig * 1024 / 1000 < 2 * BINADE {
            10
        } else {
            9
        };
        let mut f: u64 = 1;
        let mut i: u64 = 0;
        proof {
            power2::lemma2_to64();
        }
        while i < j
            invariant
                i <= j <= 10,
                f == power2::pow2(i as nat),
                f <= 1024,
                power2::pow2(9) == 512,
                power2::pow2(10) == 1024,
                j == 10 || f <= 512,
            decreases j - i,
        {
            proof {
                power2::lemma_pow2_unfold((i + 1) as nat);
                if i + 1 < 9 {
                    power2::lemma_pow2_strictly_increases((i + 1) as nat, 9);
                }
            }
            f = 2 * f;
            i = i + 1;
        }
        proof {
            assert(sig * f <= sig * 1024) by (nonlinear_arith)
                requires
                    f <= 1024,
            ;
            assert(j < 10 ==> sig * f <= sig * 512) by (nonlinear_arith)
                requires
                    j == 10 || f <= 512,
            ;
        }
        let product: u64 = sig * f;
        let h: u64 = round_half_even(product / 1000, product % 1000, 1000);
        let pattern: u64 = (t - j) * BINADE + h;
        proof {
            let e = (t - j) as nat;
            let (q, r) = ((product / 1000) as nat, (product % 1000) as nat);
            let num = scaled(m as nat);
            if m < BINADE {
                let (x, y) = (sig as nat, power2::pow2(t as nat));
                assert(x * y == x) by (nonlinear_arith)
                    requires
                        y == 1,
                ;
            }
            assert(num == sig as nat * power2::pow2(t as nat));
            power2::lemma_pow2_adds(e, j as nat);
            assert(num * 1000 == 1000 * power2::pow2(e) * (q * 1000 + r)) by (nonlinear_arith)
                requires
                    num == sig as nat * power2::pow2(t as nat),
                    power2::pow2(t as nat) == power2::pow2(e) * f as nat,
                    q * 1000 + r == sig as nat * f as nat,
            ;
            lemma_round(e, q, r, 1000, num, 1000);
            lemma_rounded(pattern as nat, num, 1000);
        }
        if negative {
            Real(SIGN + pattern)
        } else {
            Real(pattern)
        }
    }
}

/// Every integer of at most fifty-three bits is a real number of its own: the
/// nearest real number is exactly as large.
pub proof fn law_small_integers_are_exact(n: nat)
    requires
        n < 2 * BINADE,
    ensures
        !real_of_int(n as int).negative(),
        real_of_int(n as int).magnitude() < INFINITY,
        scaled(real_of_int(n as int).magnitude()) == n * power2::pow2(1074),
        n <= usize::MAX ==> real_to_index(real_of_int(n as int)) == n,
{
    let m = small_pattern(n);
    let u = power2::pow2(1074);
    power2::lemma_pow2_pos(1074);
    lemma_rounded(m, n * u, 1);
    assert((n * u) / u == n) by (nonlinear_arith)
        requires
            u > 0,
    ;
}

/// The distance between two numbers.
pub open spec fn distance(a: nat, b: nat) -> int {
    if a < b {
        b - a
    } else {
        a - b
    }
}

/// The pattern that is nearest to a quotient is that of the closest magnitude: none
/// is closer, and of two that are as close it is the even one.
pub proof fn law_nearest_is_closest(m: nat, other: nat, num: nat, den: nat)
    requires
        den > 0,
        nearest(m, num, den),
        m < INFINITY,
        other < INFINITY,
        other != m,
    ensures
        distance(scaled(m) * den, num) <= distance(scaled(other) * den, num),
        distance(scaled(m) * den, num) == distance(scaled(other) * den, num) ==> m
            % 2 == 0,
{
    let (x, y) = (scaled(m) * den, scaled(other) * den);
    if other < m {
        let below = scaled((m - 1) as nat);
        assert((below + scaled(m)) * den == below * den + x) by (nonlinear_arith)
            requires
                x == scaled(m) * den,
        ;
        if other < m - 1 {
            lemma_scaled_increases(other, (m - 1) as nat);
        }
        lemma_scaled_increases(other, m);
        assert(y <= below * den && y < x) by (nonlinear_arith)
            requires
                scaled(other) <= below,
                scaled(other) < scaled(m),
                den > 0,
                y == scaled(other) * den,
                x == scaled(m) * den,
        ;
    } else {
        let next = scaled(m + 1);
        assert((scaled(m) + next) * den == x + next * den) by (nonlinear_arith)
            requires
                x == scaled(m) * den,
        ;
        if m + 1 < other {
            lemma_scaled_increases(m + 1, other);
        }
        lemma_scaled_increases(m, other);
        assert(next * den <= y && x < y) by (nonlinear_arith)
            requires
                next <= scaled(other),
                scaled(m) < scaled(other),
                den > 0,
                y == scaled(other) * den,
                x == scaled(m) * den,
        ;
    }
}

/// Neighbouring magnitudes are one unit apart, and the unit doubles with each
/// exponent from the second on.
pub proof fn law_magnitudes_are_spaced_by_powers_of_two(m: nat)
    ensures
        scaled(0) == 0,
        m < 2 * BINADE ==> scaled(m + 1) == scaled(m) + 1,
        m >= BINADE ==> scaled(m + 1) == scaled(m) + power2::pow2((m / BINADE as nat - 1) as nat),
        power2::pow2(0) == 1,
        power2::pow2((m / BINADE as nat + 1) as nat) == 2 * power2::pow2(m / BINADE as nat),
{
    let p = BINADE as nat;
    power2::lemma2_to64();
    power2::lemma_pow2_unfold((m / p + 1) as nat);
    if m >= p {
        let e = (m / p - 1) as nat;
        let q = (m - e * p) as nat;
        assert(p <= q < 2 * p && m == e * p + q) by (nonlinear_arith)
            requires
                e == m / p - 1,
                q == m - e * p,
                p > 0,
                m >= p,
        ;
        lemma_grid(e, q);
        lemma_grid(e, q + 1);
        let u = power2::pow2(e);
        assert((q + 1) * u == q * u + u) by (nonlinear_arith);
        if m < 2 * p {
            assert(e == 0) by (nonlinear_arith)
                requires
                    e == m / p - 1,
                    p <= m < 2 * p,
            ;
        }
    } else {
        lemma_grid(0, m);
        lemma_grid(0, m + 1);
    }
}

/// An integer becomes the real number of the nearest magnitude, with its sign; zero
/// has none.
pub proof fn law_integers_are_rounded(n: nat, m: nat)
    requires
        nearest(m, n * power2::pow2(1074), 1),
    ensures
        real_of_int(n as int) == Real(m as u64),
        n > 0 ==> real_of_int(-n) == Real((SIGN + m) as u64),
        !real_of_int(n as int).negative(),
        n > 0 ==> real_of_int(-n).negative() && real_of_int(-n).magnitude() == m,
{
    lemma_rounded(m, n * power2::pow2(1074), 1);
}

/// The thousandth of a number has its sign and the magnitude that is nearest to the
/// quotient. What is no finite number stays as it is.
pub proof fn law_thousandths_are_rounded(r: Real, m: nat)
    requires
        r.magnitude() < INFINITY ==> nearest(m, scaled(r.magnitude()), 1000),
    ensures
        r.magnitude() >= INFINITY ==> real_thousandth(r) == r,
        r.magnitude() < INFINITY ==> real_thousandth(r).magnitude() == m
            && real_thousandth(r).negative() == r.negative(),
{
    if r.magnitude() < INFINITY {
        lemma_rounded(m, scaled(r.magnitude()), 1000);
    }
}

/// The integer that a real number stands for, in units of two to the power -1074.
pub open spec fn worth(r: Real) -> int {
    if r.0 >= 0x8000_0000_0000_0000 {
        -scaled((r.0 - 0x8000_0000_0000_0000) as nat)
    } else {
        scaled(r.0 as nat) as int
    }
}

/// Real numbers are equal where they stand for the same number: the two zeros are
/// equal, and a pattern that stands for no number equals none, not even itself.
pub proof fn law_equal_reals_stand_for_one_number(a: Real, b: Real)
    ensures
        a.equals(b) <==> !a.is_nan() && !b.is_nan() && worth(a) == worth(b),
        a.is_nan() <==> a.0 % 0x8000_0000_0000_0000 > 0x7ff0_0000_0000_0000,
{
    let (x, y) = (a.magnitude(), b.magnitude());
    law_magnitudes_are_spaced_by_powers_of_two(0);
    if x < y {
        lemma_scaled_increases(x, y);
    } else if y < x {
        lemma_scaled_increases(y, x);
    }
    if x > 0 {
        lemma_scaled_increases(0, x);
    }
    if y > 0 {
        lemma_scaled_increases(0, y);
    }
}

/// A real number as an index is the integer below it: no more than the number, and
/// less than one below it.
pub proof fn law_indices_are_whole_parts(r: Real)
    ensures
        r.negative() || r.is_nan() ==> real_to_index(r) == 0,
        !r.negative() && r.magnitude() == INFINITY ==> real_to_index(r) == usize::MAX,
        !r.negative() && r.magnitude() < INFINITY && real_to_index(r) < usize::MAX ==> {
            &&& real_to_index(r) * power2::pow2(1074) <= scaled(r.magnitude())
            &&& scaled(r.magnitude()) < (real_to_index(r) + 1) * power2::pow2(1074)
        },
        !r.negative() && r.magnitude() < INFINITY && real_to_index(r) == usize::MAX
            ==> usize::MAX * power2::pow2(1074) <= scaled(r.magnitude()),
{
    let (x, u) = (scaled(r.magnitude()), power2::pow2(1074));
    power2::lemma_pow2_pos(1074);
    let q = x / u;
    assert(q * u <= x < (q + 1) * u) by (nonlinear_arith)
        requires
            q == x / u,
            u > 0,
    ;
    if q > usize::MAX {
        let most = usize::MAX as nat;
        assert(most * u <= q * u) by (nonlinear_arith)
            requires
                most <= q,
                u > 0,
        ;
    }
}

/// The parts of a pattern: 52 bits for the fraction, eleven for the exponent, and the
/// sign above them. All exponent bits stand for infinity.
pub proof fn law_parts_of_a_pattern(r: Real)
    ensures
        BINADE == 0x0010_0000_0000_0000,
        INFINITY == 2047 * BINADE,
        SIGN == 2048 * BINADE,
        r.negative() <==> r.0 >= 0x8000_0000_0000_0000,
        r.magnitude() == r.0 as int % 0x8000_0000_0000_0000,
{
}

} // verus!
