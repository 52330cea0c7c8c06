//! Binary floating-point arithmetic on magnitudes, rounded to nearest with ties
//! to even.
//!
//! A magnitude is a bit pattern without its sign. Every finite magnitude is a
//! natural number of units, the unit being the least positive number of the
//! format, so exact results are ratios of natural numbers and rounding is
//! integer division.

use vstd::arithmetic::div_mod::{
    lemma_div_basics, lemma_fundamental_div_mod, lemma_fundamental_div_mod_converse,
};
use vstd::arithmetic::power2::{
    lemma2_to64, lemma2_to64_rest, lemma_pow2_adds, lemma_pow2_pos, lemma_pow2_strictly_increases,
    lemma_pow2_unfold, pow2,
};
use vstd::prelude::*;

verus! {

/// A binary interchange format: the bits of its fraction and of its exponent.
#[derive(Clone, Copy, Debug, PartialEq, Eq, Structural)]
pub struct Format {
    pub fraction: u32,
    pub exponent: u32,
}

/// Single precision.
pub open spec fn single_format() -> Format {
    Format { fraction: 23, exponent: 8 }
}

/// Double precision.
pub open spec fn double_format() -> Format {
    Format { fraction: 52, exponent: 11 }
}

/// The position of the highest set bit of a positive number.
pub open spec fn top_bit(m: nat) -> nat
    decreases m,
{
    if m < 2 {
        0
    } else {
        1 + top_bit(m / 2)
    }
}

/// The integer nearest to `n / d`, the even one of two that are equally near.
pub open spec fn nearest_even(n: nat, d: nat) -> nat {
    let quotient = n / d;
    let rest = n % d;
    if 2 * rest > d || (2 * rest == d && quotient % 2 == 1) {
        quotient + 1
    } else {
        quotient
    }
}

impl Format {
    pub open spec fn valid(self) -> bool {
        self == single_format() || self == double_format()
    }

    /// The magnitude of infinity. Larger ones are NaNs.
    pub open spec fn infinity(self) -> nat {
        ((pow2(self.exponent as nat) - 1) * pow2(self.fraction as nat)) as nat
    }

    /// The power of two that the number one is, in units.
    pub open spec fn unit_exponent(self) -> nat {
        (pow2((self.exponent - 1) as nat) + self.fraction - 2) as nat
    }

    /// The significand of a finite magnitude.
    pub open spec fn significand(self, magnitude: nat) -> nat {
        let one = pow2(self.fraction as nat);
        if magnitude < one {
            magnitude
        } else {
            magnitude % one + one
        }
    }

    /// The power of two that scales the significand, in units.
    pub open spec fn scale(self, magnitude: nat) -> nat {
        let field = magnitude / pow2(self.fraction as nat);
        if field == 0 {
            0
        } else {
            (field - 1) as nat
        }
    }

    /// The value of a finite magnitude, in units.
    pub open spec fn units(self, magnitude: nat) -> nat {
        self.significand(magnitude) * pow2(self.scale(magnitude))
    }

    /// The magnitude nearest to `n / d` units; infinity where it is too large.
    pub open spec fn rounded(self, n: nat, d: nat) -> nat {
        let top = top_bit(n / d);
        let shift: nat = if top > self.fraction {
            (top - self.fraction) as nat
        } else {
            0
        };
        let magnitude = shift * pow2(self.fraction as nat) + nearest_even(n, d * pow2(shift));
        if magnitude >= self.infinity() {
            self.infinity()
        } else {
            magnitude
        }
    }
}

pub proof fn lemma_top_bit(m: nat, p: nat)
    requires
        pow2(p) <= m < pow2(p + 1),
    ensures
        top_bit(m) == p,
    decreases p,
{
    lemma2_to64();
    if p == 0 {
        assert(pow2(1) == 2);
    } else {
        lemma_pow2_unfold(p);
        lemma_pow2_unfold(p + 1);
        lemma_pow2_pos((p - 1) as nat);
        lemma_top_bit(m / 2, (p - 1) as nat);
    }
}

pub proof fn lemma_top_bit_bounds(m: nat)
    requires
        m > 0,
    ensures
        pow2(top_bit(m)) <= m < pow2(top_bit(m) + 1),
    decreases m,
{
    lemma2_to64();
    if m >= 2 {
        lemma_top_bit_bounds(m / 2);
        lemma_pow2_unfold(top_bit(m));
        lemma_pow2_unfold(top_bit(m) + 1);
    }
}

proof fn lemma_pow2_ordered(a: nat, b: nat)
    requires
        a <= b,
    ensures
        pow2(a) <= pow2(b),
{
    if a < b {
        lemma_pow2_strictly_increases(a, b);
    }
}

proof fn lemma_top_bit_below(m: nat, p: nat)
    requires
        0 < m < pow2(p),
    ensures
        top_bit(m) < p,
{
    lemma_top_bit_bounds(m);
    if top_bit(m) >= p {
        lemma_pow2_ordered(p, top_bit(m));
    }
}

pub proof fn lemma_top_bit_of_product(m: nat, e: nat)
    requires
        m > 0,
    ensures
        top_bit(m * pow2(e)) == top_bit(m) + e,
{
    let t = top_bit(m);
    lemma_top_bit_bounds(m);
    lemma_pow2_adds(t, e);
    lemma_pow2_adds(t + 1, e);
    lemma_pow2_pos(e);
    let p = pow2(e);
    let low = pow2(t);
    let high = pow2(t + 1);
    assert(low * p <= m * p < high * p) by (nonlinear_arith)
        requires
            low <= m < high,
            p > 0,
    ;
    lemma_top_bit(m * pow2(e), t + e);
}

proof fn lemma_top_bit_of_quotient(m: nat, k: nat)
    requires
        m > 0,
        k <= top_bit(m),
    ensures
        top_bit(m / pow2(k)) == top_bit(m) - k,
{
    let t = top_bit(m);
    lemma_top_bit_bounds(m);
    lemma_pow2_adds((t - k) as nat, k);
    lemma_pow2_adds((t - k + 1) as nat, k);
    lemma_pow2_pos(k);
    let p = pow2(k);
    let low = pow2((t - k) as nat);
    let high = pow2((t - k + 1) as nat);
    assert(low <= m / p < high) by (nonlinear_arith)
        requires
            low * p <= m < high * p,
            p > 0,
    ;
    lemma_top_bit(m / p, (t - k) as nat);
}

proof fn lemma_quotient_of_small(m: nat, k: nat)
    requires
        0 < m,
        k > top_bit(m),
    ensures
        m / pow2(k) == 0,
        m < pow2(k),
{
    lemma_top_bit_bounds(m);
    lemma_pow2_ordered(top_bit(m) + 1, k);
    lemma_div_basics(m as int);
    vstd::arithmetic::div_mod::lemma_basic_div(m as int, pow2(k) as int);
}

/// Scaling numerator and denominator alike changes neither quotient nor the
/// nearest integer.
pub proof fn lemma_ratio_scales(n: nat, d: nat, c: nat)
    requires
        d > 0,
        c > 0,
    ensures
        d * c > 0,
        (n * c) / (d * c) == n / d,
        nearest_even(n * c, d * c) == nearest_even(n, d),
{
    let q = n / d;
    let r = n % d;
    lemma_fundamental_div_mod(n as int, d as int);
    assert(d * c > 0) by (nonlinear_arith)
        requires
            d > 0,
            c > 0,
    ;
    assert(n * c == q * (d * c) + r * c) by (nonlinear_arith)
        requires
            n == d * q + r,
    ;
    assert(0 <= r * c < d * c) by (nonlinear_arith)
        requires
            0 <= r < d,
            c > 0,
    ;
    lemma_fundamental_div_mod_converse((n * c) as int, (d * c) as int, q as int, (r * c) as int);
    assert((2 * (r * c) > d * c) == (2 * r > d)) by (nonlinear_arith)
        requires
            c > 0,
    ;
    assert((2 * (r * c) == d * c) == (2 * r == d)) by (nonlinear_arith)
        requires
            c > 0,
    ;
}

/// A multiple of the denominator rounds to itself.
pub proof fn lemma_exact_ratio(n: nat, c: nat)
    requires
        c > 0,
    ensures
        nearest_even(n * c, c) == n,
        (n * c) / c == n,
{
    lemma_ratio_scales(n, 1, c);
    assert(1 * c == c);
    lemma_div_basics(n as int);
    lemma_fundamental_div_mod_converse(n as int, 1, n as int, 0);
}

/// Scaling numerator and denominator alike does not change what is rounded.
pub proof fn lemma_rounded_scales(f: Format, n: nat, d: nat, c: nat)
    requires
        d > 0,
        c > 0,
    ensures
        f.rounded(n * c, d * c) == f.rounded(n, d),
{
    lemma_ratio_scales(n, d, c);
    let top = top_bit(n / d);
    let shift: nat = if top > f.fraction {
        (top - f.fraction) as nat
    } else {
        0
    };
    lemma_pow2_pos(shift);
    let p = pow2(shift);
    assert(d * p > 0) by (nonlinear_arith)
        requires
            d > 0,
            p > 0,
    ;
    lemma_ratio_scales(n, d * p, c);
    assert((d * c) * p == (d * p) * c) by (nonlinear_arith);
}

/// The exact value `m * 2^e` as a ratio.
pub open spec fn ratio(m: nat, e: int) -> (nat, nat) {
    if e >= 0 {
        (m * pow2(e as nat), 1)
    } else {
        (m, pow2((-e) as nat))
    }
}

pub proof fn lemma_format_bounds(f: Format)
    requires
        f.valid(),
    ensures
        pow2(f.fraction as nat) <= 0x10_0000_0000_0000,
        pow2(f.fraction as nat) >= 0x80_0000,
        f == single_format() ==> pow2(f.fraction as nat) == 0x80_0000 && f.infinity() == 0x7f80_0000
            && f.unit_exponent() == 149 && pow2(f.exponent as nat) == 256,
        f == double_format() ==> pow2(f.fraction as nat) == 0x10_0000_0000_0000 && f.infinity()
            == 0x7ff0_0000_0000_0000 && f.unit_exponent() == 1074 && pow2(f.exponent as nat) == 2048,
{
    lemma2_to64();
    lemma2_to64_rest();
}

/// The power of two with the exponent `n`.
pub fn power_of_two(n: u32) -> (r: u128)
    requires
        n <= 126,
    ensures
        r == pow2(n as nat),
        r <= 0x4000_0000_0000_0000_0000_0000_0000_0000,
{
    let mut r: u128 = 1;
    let mut i: u32 = 0;
    proof {
        lemma2_to64();
        lemma2_to64_rest();
        lemma_pow2_adds(63, 63);
    }
    while i < n
        invariant
            i <= n <= 126,
            r == pow2(i as nat),
            pow2(126) == 0x4000_0000_0000_0000_0000_0000_0000_0000,
        decreases n - i,
    {
        proof {
            lemma_pow2_unfold((i + 1) as nat);
            lemma_pow2_ordered((i + 1) as nat, 126);
        }
        r = r * 2;
        i = i + 1;
    }
    proof {
        lemma_pow2_ordered(n as nat, 126);
    }
    r
}

/// The position of the highest set bit.
fn highest_bit(m: u128) -> (r: u32)
    requires
        m > 0,
    ensures
        r == top_bit(m as nat),
        r <= 127,
{
    let mut rest: u128 = m;
    let mut p: u32 = 0;
    proof {
        lemma2_to64();
        lemma2_to64_rest();
        lemma_pow2_adds(64, 64);
        lemma_top_bit_below(m as nat, 128);
    }
    while rest >= 2
        invariant
            rest > 0,
            top_bit(m as nat) == p + top_bit(rest as nat),
            top_bit(m as nat) < 128,
        decreases rest,
    {
        rest = rest / 2;
        p = p + 1;
    }
    p
}

/// The integer nearest to `m / 2^s`.
fn nearest_quotient(m: u128, s: u32) -> (r: u128)
    requires
        s <= 126,
    ensures
        r == nearest_even(m as nat, pow2(s as nat)),
{
    let d = power_of_two(s);
    proof {
        lemma_pow2_pos(s as nat);
        assert(m / d <= m) by (nonlinear_arith)
            requires
                d >= 1,
        ;
    }
    let quotient: u128 = m / d;
    let rest: u128 = m % d;
    if 2 * rest > d || (2 * rest == d && quotient % 2 == 1) {
        proof {
            if s == 0 {
                lemma2_to64();
                assert(rest == 0);
            } else {
                lemma_pow2_unfold(s as nat);
                lemma_pow2_pos((s - 1) as nat);
                assert(d >= 2);
                assert(m / d <= m / 2) by (nonlinear_arith)
                    requires
                        d >= 2,
                ;
            }
        }
        quotient + 1
    } else {
        quotient
    }
}

/// Rounds the exact value `m * 2^e` units.
pub fn round_exact(f: Format, m: u128, e: i32) -> (r: u64)
    requires
        f.valid(),
        m < pow2(120),
        -8000 <= e <= 8000,
    ensures
        r == f.rounded(ratio(m as nat, e as int).0, ratio(m as nat, e as int).1),
        r <= f.infinity(),
{
    proof {
        lemma_format_bounds(f);
        lemma2_to64();
        if e >= 0 {
            lemma_pow2_pos(e as nat);
        } else {
            lemma_pow2_pos((-e) as nat);
        }
    }
    let ghost n = ratio(m as nat, e as int).0;
    let ghost d = ratio(m as nat, e as int).1;
    if m == 0 {
        proof {
            assert(0nat * pow2(e as nat) == 0);
            lemma_div_basics(d as int);
            assert(n == 0);
            assert(0nat % d == 0) by (nonlinear_arith)
                requires
                    d > 0,
            ;
            assert(d * 1 == d);
        }
        return 0;
    }
    let bit: u32 = highest_bit(m);
    proof {
        lemma_top_bit_below(m as nat, 120);
    }
    let top: i32 = bit as i32 + e;
    let shift: i32 = if top > f.fraction as i32 {
        top - f.fraction as i32
    } else {
        0
    };
    proof {
        // The position of the highest bit of the integer part.
        if e >= 0 {
            lemma_top_bit_of_product(m as nat, e as nat);
            lemma_div_basics(n as int);
            assert(n / d == n);
            assert(top_bit(n / d) == top);
        } else if top >= 0 {
            lemma_top_bit_of_quotient(m as nat, (-e) as nat);
            assert(top_bit(n / d) == top);
        } else {
            lemma_quotient_of_small(m as nat, (-e) as nat);
            assert(top_bit(n / d) == 0);
        }
        lemma_pow2_pos(shift as nat);
    }
    let ghost expected: nat = if top_bit(n / d) > f.fraction {
        (top_bit(n / d) - f.fraction) as nat
    } else {
        0
    };
    assert(shift == expected);
    let limit: i32 = if f.exponent == 8 {
        255
    } else {
        2047
    };
    let one = power_of_two(f.fraction) as u64;
    let infinity: u64 = limit as u64 * one;
    assert(infinity == f.infinity());
    if shift >= limit {
        proof {
            let part = nearest_even(n, d * pow2(shift as nat));
            assert(shift * one + part >= limit * one) by (nonlinear_arith)
                requires
                    shift >= limit,
                    part >= 0,
            ;
        }
        return infinity;
    }
    let s: i32 = shift - e;
    let part: u64 = if s <= 0 {
        proof {
            // e > shift >= 0: the value is a multiple of the rounding step.
            let k = (-s) as nat;
            lemma_pow2_adds(k, shift as nat);
            lemma_pow2_pos(k);
            assert(n == (m * pow2(k)) * pow2(shift as nat)) by (nonlinear_arith)
                requires
                    n == m * pow2(e as nat),
                    pow2(e as nat) == pow2(k) * pow2(shift as nat),
            ;
            lemma_exact_ratio((m * pow2(k)) as nat, pow2(shift as nat));
            assert(d * pow2(shift as nat) == pow2(shift as nat));
            // It has no more than the bits of a significand.
            lemma_top_bit_of_product(m as nat, k);
            lemma_top_bit_bounds((m * pow2(k)) as nat);
            assert(bit + k <= f.fraction);
            lemma_pow2_ordered((bit + k + 1) as nat, (f.fraction + 1) as nat);
            lemma_pow2_unfold((f.fraction + 1) as nat);
            assert(m * pow2(k) < 2 * one);
            lemma_top_bit_bounds(m as nat);
            assert(k <= f.fraction);
        }
        let scale = power_of_two((-s) as u32);
        (m * scale) as u64
    } else {
        proof {
            if e >= 0 {
                let c = pow2(e as nat);
                lemma_pow2_adds(s as nat, e as nat);
                lemma_pow2_pos(s as nat);
                lemma_ratio_scales(m as nat, pow2(s as nat), c);
                assert(d * pow2(shift as nat) == pow2(s as nat) * c);
            } else {
                lemma_pow2_adds((-e) as nat, shift as nat);
                assert(d * pow2(shift as nat) == pow2(s as nat));
            }
            assert(nearest_even(n, d * pow2(shift as nat)) == nearest_even(m as nat, pow2(s as nat)));
        }
        if s > bit as i32 + 1 {
            proof {
                lemma_quotient_of_small(m as nat, s as nat);
                lemma_quotient_of_small(m as nat, (s - 1) as nat);
                lemma_pow2_unfold(s as nat);
                lemma_fundamental_div_mod(m as int, pow2(s as nat) as int);
            }
            0
        } else {
            let rounded = nearest_quotient(m, s as u32);
            proof {
                // The quotient keeps the bits of a significand.
                lemma_top_bit_bounds(m as nat);
                let keep = (bit + 1 - s) as nat;
                lemma_pow2_adds(keep, s as nat);
                lemma_pow2_pos(s as nat);
                let p = pow2(s as nat);
                let high = pow2(keep);
                assert(m as nat / p < high) by (nonlinear_arith)
                    requires
                        m < high * p,
                        p > 0,
                ;
                assert(keep <= f.fraction + 1);
                lemma_pow2_ordered(keep, (f.fraction + 1) as nat);
                lemma_pow2_unfold((f.fraction + 1) as nat);
                assert(rounded <= 2 * one);
            }
            rounded as u64
        }
    };
    assert(part == nearest_even(n, d * pow2(shift as nat)));
    proof {
        assert(shift * one <= 2046 * one) by (nonlinear_arith)
            requires
                shift <= 2046,
                one >= 0,
        ;
    }
    let magnitude: u64 = shift as u64 * one + part;
    if magnitude >= infinity {
        infinity
    } else {
        magnitude
    }
}

/// What a ratio with a small integer part rounds to is small.
pub proof fn lemma_rounded_bound(f: Format, n: nat, d: nat, top: nat)
    requires
        f.valid(),
        d > 0,
        n / d > 0 ==> top_bit(n / d) <= top,
        f.fraction <= top,
    ensures
        f.rounded(n, d) <= (top - f.fraction + 2) * pow2(f.fraction as nat),
        n / d > 0 ==> f.rounded(n, d) > 0 || f.infinity() == 0,
        f.rounded(n, d) <= f.infinity(),
{
    lemma_format_bounds(f);
    lemma2_to64();
    let one = pow2(f.fraction as nat);
    let t = top_bit(n / d);
    let shift: nat = if t > f.fraction {
        (t - f.fraction) as nat
    } else {
        0
    };
    lemma_pow2_pos(shift);
    let p = pow2(shift);
    let q = n / d;
    lemma_fundamental_div_mod(n as int, d as int);
    assert(d * p > 0) by (nonlinear_arith)
        requires
            d > 0,
            p > 0,
    ;
    lemma_fundamental_div_mod(n as int, (d * p) as int);
    let whole = n / (d * p);
    if q > 0 {
        lemma_top_bit_bounds(q);
        lemma_pow2_adds((f.fraction + 1) as nat, shift);
        lemma_pow2_unfold((f.fraction + 1) as nat);
        lemma_pow2_ordered(t + 1, (f.fraction + 1 + shift) as nat);
        lemma_pow2_ordered(shift, t);
        assert(d * (q + 1) == d * q + d) by (nonlinear_arith);
        assert(whole < 2 * one) by (nonlinear_arith)
            requires
                n < d * (q + 1),
                q + 1 <= (2 * one) * p,
                n == (d * p) * whole + n % (d * p),
                n % (d * p) >= 0,
                d > 0,
                p > 0,
        ;
        assert(whole >= 1) by (nonlinear_arith)
            requires
                n >= d * q,
                q >= p,
                n == (d * p) * whole + n % (d * p),
                n % (d * p) < d * p,
                whole >= 0,
                d > 0,
                p > 0,
        ;
    } else {
        assert(d * q == 0) by (nonlinear_arith)
            requires
                q == 0,
        ;
        assert(whole == 0) by (nonlinear_arith)
            requires
                n < d,
                p >= 1,
                n == (d * p) * whole + n % (d * p),
                n % (d * p) >= 0,
                whole >= 0,
                d > 0,
        ;
    }
    assert(shift * one <= (top - f.fraction) * one) by (nonlinear_arith)
        requires
            shift <= top - f.fraction,
    ;
    assert((top - f.fraction + 2) * one == (top - f.fraction) * one + 2 * one) by (nonlinear_arith);
}

/// A number by its sign and magnitude.
#[derive(Clone, Copy, Debug, PartialEq, Eq, Structural)]
pub struct Signed {
    pub negative: bool,
    pub magnitude: u64,
}

impl Format {
    pub open spec fn nan(self, a: Signed) -> bool {
        a.magnitude > self.infinity()
    }

    pub open spec fn infinite(self, a: Signed) -> bool {
        a.magnitude == self.infinity()
    }

    /// The quiet NaN that every undefined result is.
    pub open spec fn undefined(self) -> Signed {
        Signed { negative: false, magnitude: (self.infinity() + pow2((self.fraction - 1) as nat)) as u64 }
    }

    /// The value of a finite number, in units.
    pub open spec fn value(self, a: Signed) -> int {
        if a.negative {
            -self.units(a.magnitude as nat)
        } else {
            self.units(a.magnitude as nat) as int
        }
    }

    pub open spec fn sum(self, a: Signed, b: Signed) -> Signed {
        if self.nan(a) || self.nan(b) {
            self.undefined()
        } else if self.infinite(a) && self.infinite(b) {
            if a.negative == b.negative {
                a
            } else {
                self.undefined()
            }
        } else if self.infinite(a) {
            a
        } else if self.infinite(b) {
            b
        } else {
            let exact = self.value(a) + self.value(b);
            if exact == 0 {
                Signed { negative: a.negative && b.negative, magnitude: 0 }
            } else if exact < 0 {
                Signed { negative: true, magnitude: self.rounded((-exact) as nat, 1) as u64 }
            } else {
                Signed { negative: false, magnitude: self.rounded(exact as nat, 1) as u64 }
            }
        }
    }

    pub open spec fn product(self, a: Signed, b: Signed) -> Signed {
        let negative = a.negative != b.negative;
        if self.nan(a) || self.nan(b) || (self.infinite(a) && b.magnitude == 0) || (self.infinite(b)
            && a.magnitude == 0) {
            self.undefined()
        } else if self.infinite(a) || self.infinite(b) {
            Signed { negative, magnitude: self.infinity() as u64 }
        } else {
            Signed {
                negative,
                magnitude: self.rounded(
                    self.units(a.magnitude as nat) * self.units(b.magnitude as nat),
                    pow2(self.unit_exponent()),
                ) as u64,
            }
        }
    }

    pub open spec fn quotient(self, a: Signed, b: Signed) -> Signed {
        let negative = a.negative != b.negative;
        if self.nan(a) || self.nan(b) || (self.infinite(a) && self.infinite(b)) || (a.magnitude == 0
            && b.magnitude == 0) {
            self.undefined()
        } else if self.infinite(a) || b.magnitude == 0 {
            Signed { negative, magnitude: self.infinity() as u64 }
        } else if self.infinite(b) || a.magnitude == 0 {
            Signed { negative, magnitude: 0 }
        } else {
            Signed {
                negative,
                magnitude: self.rounded(
                    self.units(a.magnitude as nat) * pow2(self.unit_exponent()),
                    self.units(b.magnitude as nat),
                ) as u64,
            }
        }
    }
}

/// The exponent field of a finite magnitude is below that of infinity.
proof fn lemma_field_bound(f: Format, magnitude: nat)
    requires
        f.valid(),
        magnitude < f.infinity(),
    ensures
        magnitude / pow2(f.fraction as nat) <= pow2(f.exponent as nat) - 2,
        f.significand(magnitude) < 2 * pow2(f.fraction as nat),
        f.scale(magnitude) <= 2045,
        magnitude / pow2(f.fraction as nat) > 0 ==> magnitude == f.scale(magnitude) * pow2(f.fraction as nat)
            + f.significand(magnitude) && f.significand(magnitude) >= pow2(f.fraction as nat),
        magnitude / pow2(f.fraction as nat) == 0 <==> magnitude < pow2(f.fraction as nat),
{
    lemma_format_bounds(f);
    let one = pow2(f.fraction as nat);
    let field = magnitude / one;
    lemma_fundamental_div_mod(magnitude as int, one as int);
    let limit = pow2(f.exponent as nat) - 1;
    assert(field < limit) by (nonlinear_arith)
        requires
            magnitude < limit * one,
            one * field <= magnitude,
            one > 0,
    ;
    if field == 0 {
        assert(one * field == 0) by (nonlinear_arith)
            requires
                field == 0,
        ;
    } else {
        assert(one * field >= one) by (nonlinear_arith)
            requires
                field >= 1,
                one > 0,
        ;
        assert(magnitude == (field - 1) * one + (magnitude % one + one)) by (nonlinear_arith)
            requires
                magnitude == one * field + magnitude % one,
        ;
    }
}

/// A scaled number has a significand with its highest bit in place.
pub proof fn lemma_normal_significand(f: Format, magnitude: nat)
    requires
        f.valid(),
        magnitude < f.infinity(),
        f.scale(magnitude) > 0,
    ensures
        f.significand(magnitude) >= pow2(f.fraction as nat),
{
    lemma_field_bound(f, magnitude);
}

/// A magnitude rounds to itself.
pub proof fn lemma_rounded_of_units(f: Format, magnitude: nat)
    requires
        f.valid(),
        magnitude < f.infinity(),
    ensures
        f.rounded(f.units(magnitude), 1) == magnitude,
{
    lemma_field_bound(f, magnitude);
    lemma_far_neighbour(f, magnitude, 0);
}

/// Less than a quarter of the last place does not change a number.
proof fn lemma_far_neighbour(f: Format, magnitude: nat, delta: nat)
    requires
        f.valid(),
        magnitude < f.infinity(),
        delta == 0 || (f.scale(magnitude) >= 2 && delta < pow2((f.scale(magnitude) - 2) as nat)),
    ensures
        f.rounded(f.units(magnitude) + delta, 1) == magnitude,
        f.units(magnitude) >= delta,
        f.rounded((f.units(magnitude) - delta) as nat, 1) == magnitude,
{
    lemma_field_bound(f, magnitude);
    lemma_format_bounds(f);
    lemma2_to64();
    let one = pow2(f.fraction as nat);
    let m = f.significand(magnitude);
    let k = f.scale(magnitude);
    let p = pow2(k);
    let exact = f.units(magnitude);
    lemma_pow2_pos(k);
    if k == 0 {
        // The value is the magnitude itself.
        assert(p == 1);
        assert(exact == m) by (nonlinear_arith)
            requires
                exact == m * p,
                p == 1,
        ;
        assert(m == magnitude);
        lemma_exact_ratio(m, 1);
        lemma_div_basics(m as int);
        if m > 0 {
            lemma_pow2_unfold((f.fraction + 1) as nat);
            lemma_top_bit_below(m, (f.fraction + 1) as nat);
        }
        assert(f.rounded(exact, 1) == magnitude);
    } else {
        assert(magnitude == k * one + m);
        assert(p >= 2) by {
            lemma_pow2_unfold(k);
            lemma_pow2_pos((k - 1) as nat);
        }
        let quarter = pow2((k - 2) as nat);
        if delta > 0 {
            lemma_pow2_unfold(k);
            lemma_pow2_unfold((k - 1) as nat);
            assert(p == 4 * quarter);
        }
        assert(4 * delta < p);
        lemma_pow2_adds(f.fraction as nat, k);
        lemma_pow2_unfold((f.fraction + 1) as nat);
        lemma_pow2_adds((f.fraction + 1) as nat, k);
        assert(one * p <= m * p && (m + 1) * p <= (2 * one) * p && m * p >= p) by (nonlinear_arith)
            requires
                one <= m < 2 * one,
                p > 0,
                one >= 1,
        ;
        assert((m + 1) * p == m * p + p) by (nonlinear_arith);
        // Above.
        let above = exact + delta;
        lemma_top_bit(above, f.fraction as nat + k);
        lemma_div_basics(above as int);
        lemma_fundamental_div_mod_converse(above as int, p as int, m as int, delta as int);
        assert(1 * p == p);
        assert(f.rounded(above, 1) == magnitude);
        // Below.
        let below = (exact - delta) as nat;
        lemma_div_basics(below as int);
        if delta > 0 {
            if m > one {
                assert((m - 1) * p == m * p - p) by (nonlinear_arith);
                assert((m - 1) * p >= one * p) by (nonlinear_arith)
                    requires
                        m - 1 >= one,
                        p > 0,
                ;
                lemma_top_bit(below, f.fraction as nat + k);
                lemma_fundamental_div_mod_converse(below as int, p as int, m - 1, p - delta);
                assert(f.rounded(below, 1) == magnitude);
            } else {
                let half = pow2((k - 1) as nat);
                lemma_pow2_unfold(k);
                assert(p == 2 * half);
                lemma_pow2_adds(f.fraction as nat, (k - 1) as nat);
                assert(one * half + half <= one * p) by (nonlinear_arith)
                    requires
                        p == 2 * half,
                        one >= 1,
                        half > 0,
                ;
                assert(below >= one * half);
                lemma_top_bit(below, (f.fraction + k - 1) as nat);
                assert(one * p == (2 * one - 1) * half + half) by (nonlinear_arith)
                    requires
                        p == 2 * half,
                ;
                lemma_fundamental_div_mod_converse(below as int, half as int, 2 * one - 1, half - delta);
                assert(1 * half == half);
                assert((k - 1) * one + 2 * one == k * one + one) by (nonlinear_arith);
                assert(f.rounded(below, 1) == magnitude);
            }
        }
    }
}

/// A significand and its scale.
pub struct Parts {
    pub significand: u64,
    pub scale: u32,
}

fn infinity_of(f: Format) -> (r: u64)
    requires
        f.valid(),
    ensures
        r == f.infinity(),
{
    proof {
        lemma_format_bounds(f);
    }
    if f.exponent == 8 {
        0x7f80_0000
    } else {
        0x7ff0_0000_0000_0000
    }
}

fn undefined_of(f: Format) -> (r: Signed)
    requires
        f.valid(),
    ensures
        r == f.undefined(),
{
    proof {
        lemma_format_bounds(f);
        lemma2_to64();
        lemma2_to64_rest();
    }
    if f.exponent == 8 {
        Signed { negative: false, magnitude: 0x7fc0_0000 }
    } else {
        Signed { negative: false, magnitude: 0x7ff8_0000_0000_0000 }
    }
}

fn unit_exponent_of(f: Format) -> (r: u32)
    requires
        f.valid(),
    ensures
        r == f.unit_exponent(),
        r <= 1074,
{
    proof {
        lemma_format_bounds(f);
    }
    if f.exponent == 8 {
        149
    } else {
        1074
    }
}

/// The significand and the scale of a finite magnitude.
pub fn parts_of(f: Format, magnitude: u64) -> (r: Parts)
    requires
        f.valid(),
        magnitude < f.infinity(),
    ensures
        r.significand == f.significand(magnitude as nat),
        r.scale == f.scale(magnitude as nat),
        r.significand < 0x20_0000_0000_0000,
        r.scale <= 2045,
{
    proof {
        lemma_format_bounds(f);
        lemma_field_bound(f, magnitude as nat);
    }
    let one = power_of_two(f.fraction) as u64;
    let field: u64 = magnitude / one;
    if field == 0 {
        Parts { significand: magnitude, scale: 0 }
    } else {
        Parts { significand: magnitude % one + one, scale: (field - 1) as u32 }
    }
}

impl Format {
    /// The remainder of a division whose quotient is cut towards zero. It has
    /// the sign of the dividend.
    pub open spec fn remainder(self, a: Signed, b: Signed) -> Signed {
        if self.nan(a) || self.nan(b) || self.infinite(a) || b.magnitude == 0 {
            self.undefined()
        } else if self.infinite(b) {
            a
        } else {
            Signed {
                negative: a.negative,
                magnitude: self.rounded(self.units(a.magnitude as nat) % self.units(b.magnitude as nat), 1) as u64,
            }
        }
    }
}

/// Scaling numerator and denominator alike scales the remainder.
pub proof fn lemma_remainder_scales(n: nat, d: nat, c: nat)
    requires
        d > 0,
        c > 0,
    ensures
        (n * c) % (d * c) == (n % d) * c,
        d * c > 0,
{
    lemma_fundamental_div_mod(n as int, d as int);
    let q = n / d;
    let r = n % d;
    assert(d * c > 0) by (nonlinear_arith)
        requires
            d > 0,
            c > 0,
    ;
    assert(n * c == q * (d * c) + r * c) by (nonlinear_arith)
        requires
            n == d * q + r,
    ;
    assert(0 <= r * c < d * c) by (nonlinear_arith)
        requires
            0 <= r < d,
            c > 0,
    ;
    lemma_fundamental_div_mod_converse((n * c) as int, (d * c) as int, q as int, (r * c) as int);
}

/// The remainder of `m * 2^k` divided by `d`.
fn scaled_remainder(m: u64, k: u32, d: u64) -> (r: u64)
    requires
        0 < d < 0x20_0000_0000_0000,
    ensures
        r == (m * pow2(k as nat)) % (d as int),
        r < d,
{
    let mut rest: u64 = m % d;
    let mut i: u32 = 0;
    proof {
        lemma2_to64();
        assert(m * pow2(0) == m) by (nonlinear_arith)
            requires
                pow2(0) == 1,
        ;
    }
    while i < k
        invariant
            i <= k,
            0 < d < 0x20_0000_0000_0000,
            rest < d,
            rest == (m * pow2(i as nat)) % (d as int),
        decreases k - i,
    {
        proof {
            let x = m * pow2(i as nat);
            lemma_pow2_unfold((i + 1) as nat);
            assert(m * pow2((i + 1) as nat) == 2 * x) by (nonlinear_arith)
                requires
                    pow2((i + 1) as nat) == 2 * pow2(i as nat),
                    x == m * pow2(i as nat),
            ;
            vstd::arithmetic::div_mod::lemma_mul_mod_noop_right(2, x, d as int);
        }
        rest = (2 * rest) % d;
        i = i + 1;
    }
    rest
}

/// The remainder of a division whose quotient is cut towards zero.
pub fn remainder_of(f: Format, a: Signed, b: Signed) -> (r: Signed)
    requires
        f.valid(),
    ensures
        r == f.remainder(a, b),
{
    let infinity = infinity_of(f);
    if a.magnitude > infinity || b.magnitude > infinity || a.magnitude == infinity || b.magnitude == 0 {
        return undefined_of(f);
    }
    if b.magnitude == infinity {
        return a;
    }
    let first = parts_of(f, a.magnitude);
    let second = parts_of(f, b.magnitude);
    proof {
        lemma2_to64();
        lemma2_to64_rest();
        lemma_pow2_adds(60, 60);
        lemma_field_bound(f, b.magnitude as nat);
        lemma_format_bounds(f);
        assert(second.significand > 0);
    }
    if first.scale >= second.scale {
        let k = first.scale - second.scale;
        let rest = scaled_remainder(first.significand, k, second.significand);
        proof {
            let p = pow2(second.scale as nat);
            lemma_pow2_pos(second.scale as nat);
            lemma_pow2_adds(k as nat, second.scale as nat);
            let n = (first.significand * pow2(k as nat)) as nat;
            lemma_remainder_scales(n, second.significand as nat, p);
            assert(n * p == f.units(a.magnitude as nat)) by (nonlinear_arith)
                requires
                    n == first.significand * pow2(k as nat),
                    f.units(a.magnitude as nat) == first.significand * pow2(first.scale as nat),
                    pow2(first.scale as nat) == pow2(k as nat) * p,
            ;
        }
        let magnitude = round_exact(f, rest as u128, second.scale as i32);
        Signed { negative: a.negative, magnitude }
    } else {
        let k = second.scale - first.scale;
        let ghost p = pow2(first.scale as nat);
        let ghost modulus = (second.significand * pow2(k as nat)) as nat;
        proof {
            lemma_pow2_pos(first.scale as nat);
            lemma_pow2_pos(k as nat);
            lemma_pow2_adds(k as nat, first.scale as nat);
            assert(modulus > 0) by (nonlinear_arith)
                requires
                    modulus == second.significand * pow2(k as nat),
                    second.significand > 0,
                    pow2(k as nat) > 0,
            ;
            lemma_remainder_scales(first.significand as nat, modulus, p);
            assert(modulus * p == f.units(b.magnitude as nat)) by (nonlinear_arith)
                requires
                    modulus == second.significand * pow2(k as nat),
                    f.units(b.magnitude as nat) == second.significand * pow2(second.scale as nat),
                    pow2(second.scale as nat) == pow2(k as nat) * p,
            ;
        }
        let rest: u64 = if k >= 54 {
            proof {
                lemma_pow2_ordered(54, k as nat);
                assert(modulus >= pow2(k as nat)) by (nonlinear_arith)
                    requires
                        modulus == second.significand * pow2(k as nat),
                        second.significand >= 1,
                        pow2(k as nat) > 0,
                ;
                vstd::arithmetic::div_mod::lemma_small_mod(first.significand as nat, modulus);
            }
            first.significand
        } else {
            let step = power_of_two(k);
            proof {
                lemma_pow2_ordered(k as nat, 54);
                assert(second.significand * step <= 0x20_0000_0000_0000 * 0x40_0000_0000_0000) by (nonlinear_arith)
                    requires
                        second.significand <= 0x20_0000_0000_0000,
                        step <= 0x40_0000_0000_0000,
                ;
            }
            let d: u128 = second.significand as u128 * step;
            let r: u128 = first.significand as u128 % d;
            proof {
                assert(r <= first.significand) by (nonlinear_arith)
                    requires
                        r == first.significand as u128 % d,
                        d > 0,
                ;
            }
            r as u64
        };
        let magnitude = round_exact(f, rest as u128, first.scale as i32);
        Signed { negative: a.negative, magnitude }
    }
}

/// `r` is the integer part of the square root of `n`.
pub open spec fn is_root(r: nat, n: nat) -> bool {
    r * r <= n < (r + 1) * (r + 1)
}

/// The integer part of a square root.
pub open spec fn whole_root(n: nat) -> nat {
    choose|r: nat| is_root(r, n)
}

proof fn lemma_root_is_unique(r: nat, s: nat, n: nat)
    requires
        is_root(r, n),
        is_root(s, n),
    ensures
        r == s,
{
    if r < s {
        assert((r + 1) * (r + 1) <= s * s) by (nonlinear_arith)
            requires
                r + 1 <= s,
        ;
    } else if s < r {
        assert((s + 1) * (s + 1) <= r * r) by (nonlinear_arith)
            requires
                s + 1 <= r,
        ;
    }
}

proof fn lemma_whole_root(n: nat)
    ensures
        is_root(whole_root(n), n),
    decreases n,
{
    if n == 0 {
        let zero: nat = 0;
        assert(zero * zero == 0 && (zero + 1) * (zero + 1) == 1) by (nonlinear_arith)
            requires
                zero == 0,
        ;
        assert(is_root(zero, n));
    } else {
        lemma_whole_root((n - 1) as nat);
        let r = whole_root((n - 1) as nat);
        if (r + 1) * (r + 1) <= n {
            assert((r + 2) * (r + 2) > n) by (nonlinear_arith)
                requires
                    n - 1 < (r + 1) * (r + 1),
            ;
            assert(is_root(r + 1, n));
        } else {
            assert(is_root(r, n));
        }
    }
}

impl Format {
    /// The square root. A bit behind the whole root of the number of units
    /// says that the root is not exact, so that it rounds to the right side.
    pub open spec fn root(self, a: Signed) -> Signed {
        if a.magnitude == 0 {
            a
        } else if self.nan(a) || a.negative {
            self.undefined()
        } else if self.infinite(a) {
            a
        } else {
            let n = self.units(a.magnitude as nat) * pow2(self.unit_exponent());
            let r = whole_root(n);
            let rest: nat = if r * r == n {
                0
            } else {
                1
            };
            Signed { negative: false, magnitude: self.rounded(2 * r + rest, 2) as u64 }
        }
    }
}

/// The integer part of the square root of a number below `2^100`.
fn find_whole_root(n: u128) -> (r: u128)
    requires
        n < 0x10_0000_0000_0000_0000_0000_0000,
    ensures
        is_root(r as nat, n as nat),
        r < 0x4_0000_0000_0000,
{
    let mut low: u128 = 0;
    let mut high: u128 = 0x4_0000_0000_0000;
    assert(high * high == 0x10_0000_0000_0000_0000_0000_0000) by (nonlinear_arith)
        requires
            high == 0x4_0000_0000_0000,
    ;
    assert(low * low == 0) by (nonlinear_arith)
        requires
            low == 0,
    ;
    while high - low > 1
        invariant
            low < high <= 0x4_0000_0000_0000,
            low * low <= n < high * high,
        decreases high - low,
    {
        let middle: u128 = low + (high - low) / 2;
        assert(middle * middle <= 0x4_0000_0000_0000 * 0x4_0000_0000_0000) by (nonlinear_arith)
            requires
                middle <= 0x4_0000_0000_0000,
        ;
        if middle * middle <= n {
            low = middle;
        } else {
            high = middle;
        }
    }
    low
}

proof fn lemma_scaled_root(w: nat, q: nat)
    ensures
        ({
            let n = w * pow2(2 * q);
            let small = whole_root(w);
            let large = whole_root(n);
            &&& small * pow2(q) <= large < (small + 1) * pow2(q)
            &&& (large == small * pow2(q) && large * large == n) <==> small * small == w
        }),
{
    let p = pow2(q);
    let n = w * pow2(2 * q);
    let small = whole_root(w);
    let large = whole_root(n);
    lemma_whole_root(w);
    lemma_whole_root(n);
    lemma_pow2_adds(q, q);
    lemma_pow2_pos(q);
    assert(pow2(2 * q) == p * p);
    assert((small * p) * (small * p) == (small * small) * (p * p)) by (nonlinear_arith);
    assert(((small + 1) * p) * ((small + 1) * p) == ((small + 1) * (small + 1)) * (p * p)) by (nonlinear_arith);
    assert((small * small) * (p * p) <= w * (p * p)) by (nonlinear_arith)
        requires
            small * small <= w,
            p > 0,
    ;
    assert(w * (p * p) < ((small + 1) * (small + 1)) * (p * p)) by (nonlinear_arith)
        requires
            w < (small + 1) * (small + 1),
            p > 0,
    ;
    if large < small * p {
        let other = small * p;
        assert((large + 1) * (large + 1) <= other * other) by (nonlinear_arith)
            requires
                large + 1 <= other,
        ;
    }
    if large >= (small + 1) * p {
        let other = (small + 1) * p;
        assert(large * large >= other * other) by (nonlinear_arith)
            requires
                large >= other,
        ;
    }
    if small * small == w {
        let other = small * p;
        assert(other * other == n);
        assert(other * other < (other + 1) * (other + 1)) by (nonlinear_arith);
        lemma_root_is_unique(large, other, n);
    }
    if large == small * p && large * large == n {
        assert(small * small == w) by (nonlinear_arith)
            requires
                (small * small) * (p * p) == w * (p * p),
                p > 0,
        ;
    }
}

/// The square root of a single-precision number, rounded.
pub fn single_root(f: Format, a: Signed) -> (r: Signed)
    requires
        f == single_format(),
    ensures
        r == f.root(a),
{
    if a.magnitude == 0 {
        return a;
    }
    let infinity = infinity_of(f);
    if a.magnitude > infinity || a.negative {
        return undefined_of(f);
    }
    if a.magnitude == infinity {
        return a;
    }
    let number = normalized_of(f, a.magnitude);
    // The root of an even power of two, with sixty bits to spare.
    let exponent: u32 = (number.scale + 149) as u32;
    let odd: u32 = exponent % 2;
    let q: u32 = (exponent - odd) / 2 - 30;
    proof {
        lemma2_to64();
        lemma2_to64_rest();
        lemma_format_bounds(f);
    }
    let step = power_of_two(60 + odd);
    proof {
        if odd == 1 {
            lemma_pow2_adds(60, 1);
        }
        assert(number.significand * step < 0x100_0000 * 0x2000_0000_0000_0000) by (nonlinear_arith)
            requires
                number.significand < 0x100_0000,
                step <= 0x2000_0000_0000_0000,
                step > 0,
        ;
        assert(number.significand * step >= 0x80_0000 * 0x1000_0000_0000_0000) by (nonlinear_arith)
            requires
                number.significand >= 0x80_0000,
                step >= 0x1000_0000_0000_0000,
        ;
    }
    let wide: u128 = number.significand as u128 * step;
    let root: u128 = find_whole_root(wide);
    proof {
        assert(root * root <= 0x4_0000_0000_0000 * 0x4_0000_0000_0000) by (nonlinear_arith)
            requires
                root < 0x4_0000_0000_0000,
        ;
    }
    let exact = root * root == wide;
    let sticky: u128 = if exact {
        0
    } else {
        1
    };
    proof {
        // The units of the number are the wide significand, scaled.
        let n = f.units(a.magnitude as nat) * pow2(149);
        let w = wide as nat;
        lemma_lifted(f.units(a.magnitude as nat), number.significand as nat, number.scale as int, 149);
        assert(n == number.significand * pow2(exponent as nat));
        assert(exponent == 60 + odd + 2 * q);
        lemma_pow2_adds((60 + odd) as nat, (2 * q) as nat);
        assert(n == w * pow2((2 * q) as nat)) by (nonlinear_arith)
            requires
                n == number.significand * pow2(exponent as nat),
                pow2(exponent as nat) == pow2((60 + odd) as nat) * pow2((2 * q) as nat),
                w == number.significand * pow2((60 + odd) as nat),
        ;
        lemma_scaled_root(w, q as nat);
        lemma_whole_root(w);
        lemma_root_is_unique(root as nat, whole_root(w), w);
        lemma_whole_root(n);
        let r = whole_root(n);
        let rest: nat = if r * r == n {
            0
        } else {
            1
        };
        let p = pow2(q as nat);
        lemma_pow2_pos(q as nat);
        let whole = 2 * r + rest;
        let b = 2 * p;
        let left = (whole - root * b) as nat;
        assert(root * b == 2 * (root * p)) by (nonlinear_arith)
            requires
                b == 2 * p,
        ;
        assert((root + 1) * p == root * p + p) by (nonlinear_arith);
        assert(whole == root * b + left);
        assert(left < b);
        assert(left == 0 <==> exact);
        assert(root >= 0x200_0000) by (nonlinear_arith)
            requires
                wide < (root + 1) * (root + 1),
                wide >= 0x80_0000 * 0x1000_0000_0000_0000,
        ;
        assert(pow2(25) == 0x200_0000);
        lemma_sticky_rounded(f, whole, b, root as nat, left, q as int);
        assert(whole * p == whole * p);
        lemma_rounded_scales(f, whole, 2, p);
        lemma_pow2_adds(60, 60);
    }
    let magnitude = round_exact(f, 2 * root + sticky, q as i32 - 1);
    Signed { negative: false, magnitude }
}

/// The sum of two numbers, rounded.
pub fn sum_of(f: Format, a: Signed, b: Signed) -> (r: Signed)
    requires
        f.valid(),
    ensures
        r == f.sum(a, b),
{
    let infinity = infinity_of(f);
    if a.magnitude > infinity || b.magnitude > infinity {
        return undefined_of(f);
    }
    if a.magnitude == infinity && b.magnitude == infinity {
        if a.negative == b.negative {
            return a;
        }
        return undefined_of(f);
    }
    if a.magnitude == infinity {
        return a;
    }
    if b.magnitude == infinity {
        return b;
    }
    let first = parts_of(f, a.magnitude);
    let second = parts_of(f, b.magnitude);
    if first.scale >= second.scale {
        finite_sum(f, a, b, first, second)
    } else {
        finite_sum(f, b, a, second, first)
    }
}

/// The sum of two finite numbers, the first with the larger scale.
fn finite_sum(f: Format, high: Signed, low: Signed, first: Parts, second: Parts) -> (r: Signed)
    requires
        f.valid(),
        high.magnitude < f.infinity(),
        low.magnitude < f.infinity(),
        first.significand == f.significand(high.magnitude as nat),
        first.scale == f.scale(high.magnitude as nat),
        second.significand == f.significand(low.magnitude as nat),
        second.scale == f.scale(low.magnitude as nat),
        first.significand < 0x20_0000_0000_0000,
        second.significand < 0x20_0000_0000_0000,
        second.scale <= first.scale <= 2045,
    ensures
        r == f.sum(high, low),
        r == f.sum(low, high),
{
    let difference: u32 = first.scale - second.scale;
    let ghost low_power = pow2(second.scale as nat);
    let ghost high_units = f.units(high.magnitude as nat);
    let ghost low_units = f.units(low.magnitude as nat);
    proof {
        lemma2_to64();
        lemma2_to64_rest();
        lemma_pow2_pos(second.scale as nat);
        lemma_pow2_adds(difference as nat, second.scale as nat);
    }
    if difference > 64 {
        proof {
            lemma_field_bound(f, high.magnitude as nat);
            lemma_rounded_of_units(f, high.magnitude as nat);
            // The lower number is far below the last place of the higher.
            lemma_pow2_adds(53, second.scale as nat);
            let m = second.significand as nat;
            assert(m * low_power < 0x20_0000_0000_0000 * low_power) by (nonlinear_arith)
                requires
                    m < 0x20_0000_0000_0000,
                    low_power > 0,
            ;
            lemma_pow2_ordered(53 + second.scale as nat, (first.scale - 2) as nat);
            lemma_far_neighbour(f, high.magnitude as nat, low_units);
            assert(high_units > 0) by {
                lemma_pow2_pos(first.scale as nat);
                lemma_format_bounds(f);
                assert(first.significand * pow2(first.scale as nat) > 0) by (nonlinear_arith)
                    requires
                        first.significand > 0,
                        pow2(first.scale as nat) > 0,
                ;
            }
            if high_units == low_units {
                lemma_pow2_pos((first.scale - 2) as nat);
                lemma_pow2_ordered((first.scale - 2) as nat, first.scale as nat);
                assert(first.significand * pow2(first.scale as nat) >= pow2(first.scale as nat)) by (nonlinear_arith)
                    requires
                        first.significand > 0,
                        pow2(first.scale as nat) > 0,
                ;
                assert(false);
            }
        }
        return high;
    }
    let step = power_of_two(difference);
    proof {
        lemma_pow2_ordered(difference as nat, 64);
        assert(first.significand * step <= 0x20_0000_0000_0000 * 0x1_0000_0000_0000_0000) by (nonlinear_arith)
            requires
                first.significand <= 0x20_0000_0000_0000,
                step <= 0x1_0000_0000_0000_0000,
        ;
    }
    let x: u128 = first.significand as u128 * step;
    let y: u128 = second.significand as u128;
    proof {
        assert(high_units == x * low_power) by (nonlinear_arith)
            requires
                high_units == first.significand * pow2(first.scale as nat),
                pow2(first.scale as nat) == step * low_power,
                x == first.significand * step,
        ;
        assert(low_units == y * low_power);
        assert((x + y) * low_power == x * low_power + y * low_power) by (nonlinear_arith);
        assert((x - y) * low_power == x * low_power - y * low_power) by (nonlinear_arith);
        assert((y - x) * low_power == y * low_power - x * low_power) by (nonlinear_arith);
        lemma_pow2_adds(60, 60);
        assert(pow2(120) == 0x1000_0000_0000_0000 * 0x1000_0000_0000_0000);
    }
    let (total, negative): (u128, bool) = if high.negative == low.negative {
        (x + y, high.negative)
    } else if x >= y {
        (x - y, high.negative)
    } else {
        (y - x, low.negative)
    };
    proof {
        let exact = f.value(high) + f.value(low);
        assert(exact == if negative {
            -(total * low_power)
        } else {
            total * low_power
        });
        assert(total > 0 ==> total * low_power > 0) by (nonlinear_arith)
            requires
                low_power > 0,
        ;
        assert(0 * low_power == 0);
    }
    if total == 0 {
        Signed { negative: high.negative && low.negative, magnitude: 0 }
    } else {
        let magnitude = round_exact(f, total, second.scale as i32);
        Signed { negative, magnitude }
    }
}

/// The product of two numbers, rounded.
pub fn product_of(f: Format, a: Signed, b: Signed) -> (r: Signed)
    requires
        f.valid(),
    ensures
        r == f.product(a, b),
{
    let negative = a.negative != b.negative;
    let infinity = infinity_of(f);
    if a.magnitude > infinity || b.magnitude > infinity || (a.magnitude == infinity && b.magnitude == 0) || (
    b.magnitude == infinity && a.magnitude == 0) {
        return undefined_of(f);
    }
    if a.magnitude == infinity || b.magnitude == infinity {
        return Signed { negative, magnitude: infinity };
    }
    let first = parts_of(f, a.magnitude);
    let second = parts_of(f, b.magnitude);
    let unit = unit_exponent_of(f);
    proof {
        lemma2_to64();
        lemma2_to64_rest();
        assert(first.significand * second.significand <= 0x20_0000_0000_0000 * 0x20_0000_0000_0000)
            by (nonlinear_arith)
            requires
                first.significand <= 0x20_0000_0000_0000,
                second.significand <= 0x20_0000_0000_0000,
        ;
        lemma_pow2_adds(60, 60);
    }
    let m: u128 = first.significand as u128 * second.significand as u128;
    let e: i32 = first.scale as i32 + second.scale as i32 - unit as i32;
    proof {
        let scales = (first.scale + second.scale) as nat;
        let exact = f.units(a.magnitude as nat) * f.units(b.magnitude as nat);
        lemma_pow2_adds(first.scale as nat, second.scale as nat);
        assert(exact == m * pow2(scales)) by (nonlinear_arith)
            requires
                exact == (first.significand * pow2(first.scale as nat)) * (second.significand * pow2(
                    second.scale as nat,
                )),
                pow2(scales) == pow2(first.scale as nat) * pow2(second.scale as nat),
                m == first.significand * second.significand,
        ;
        if e >= 0 {
            lemma_pow2_adds(e as nat, unit as nat);
            lemma_pow2_pos(unit as nat);
            let n = m * pow2(e as nat);
            assert(exact == n * pow2(unit as nat)) by (nonlinear_arith)
                requires
                    exact == m * pow2(scales),
                    pow2(scales) == pow2(e as nat) * pow2(unit as nat),
                    n == m * pow2(e as nat),
            ;
            lemma_rounded_scales(f, n as nat, 1, pow2(unit as nat));
            assert(1 * pow2(unit as nat) == pow2(unit as nat));
        } else {
            lemma_pow2_adds((-e) as nat, scales);
            lemma_pow2_pos(scales);
            lemma_pow2_pos((-e) as nat);
            lemma_rounded_scales(f, m as nat, pow2((-e) as nat), pow2(scales));
        }
    }
    let magnitude = round_exact(f, m, e);
    Signed { negative, magnitude }
}

/// Halving a quotient keeps its integer part whatever the remainder was.
proof fn lemma_sticky_floor(a: nat, b: nat, m: nat, rest: nat, sticky: nat, k: nat)
    requires
        b > 0,
        k > 0,
        a == m * b + rest,
        rest < b,
        sticky <= 1,
    ensures
        a / (b * k) == m / k,
        (2 * m + sticky) / (2 * k) == m / k,
        b * k > 0,
{
    let q = m / k;
    let l = m % k;
    lemma_fundamental_div_mod(m as int, k as int);
    assert(b * k > 0) by (nonlinear_arith)
        requires
            b > 0,
            k > 0,
    ;
    assert(a == q * (b * k) + (l * b + rest)) by (nonlinear_arith)
        requires
            a == m * b + rest,
            m == k * q + l,
    ;
    assert(l * b + rest < b * k) by (nonlinear_arith)
        requires
            l < k,
            rest < b,
            b > 0,
    ;
    assert(0 <= l * b + rest) by (nonlinear_arith)
        requires
            l >= 0,
            b > 0,
            rest >= 0,
    ;
    lemma_fundamental_div_mod_converse(a as int, (b * k) as int, q as int, (l * b + rest) as int);
    assert(2 * m + sticky == q * (2 * k) + (2 * l + sticky)) by (nonlinear_arith)
        requires
            m == k * q + l,
    ;
    lemma_fundamental_div_mod_converse((2 * m + sticky) as int, (2 * k) as int, q as int, (2 * l + sticky) as int);
}

/// A quotient with a bit for its remainder rounds as the exact ratio does.
proof fn lemma_sticky_nearest(a: nat, b: nat, m: nat, rest: nat, h: nat)
    requires
        b > 0,
        h > 0,
        a == m * b + rest,
        rest < b,
    ensures
        nearest_even(a, b * (2 * h)) == nearest_even(
            2 * m + if rest > 0 {
                1nat
            } else {
                0nat
            },
            2 * (2 * h),
        ),
{
    let d = 2 * h;
    let sticky: nat = if rest > 0 {
        1
    } else {
        0
    };
    lemma_sticky_floor(a, b, m, rest, sticky, d);
    let q = m / d;
    let l = m % d;
    lemma_fundamental_div_mod(m as int, d as int);
    lemma_fundamental_div_mod(a as int, (b * d) as int);
    lemma_fundamental_div_mod((2 * m + sticky) as int, (2 * d) as int);
    let left = a % (b * d);
    let right = (2 * m + sticky) % (2 * d);
    assert(left == l * b + rest) by (nonlinear_arith)
        requires
            a == m * b + rest,
            m == d * q + l,
            a == (b * d) * q + left,
    ;
    assert(right == 2 * l + sticky) by (nonlinear_arith)
        requires
            m == d * q + l,
            2 * m + sticky == (2 * d) * q + right,
    ;
    if l > h {
        assert(l * b >= h * b + b) by (nonlinear_arith)
            requires
                l >= h + 1,
                b > 0,
        ;
    } else if l < h {
        assert(l * b + b <= h * b) by (nonlinear_arith)
            requires
                l + 1 <= h,
                b > 0,
        ;
    }
    assert(b * d == 2 * (h * b)) by (nonlinear_arith)
        requires
            d == 2 * h,
    ;
}

/// A quotient with two bits to spare and a bit for its remainder rounds as the
/// exact ratio does.
proof fn lemma_sticky_rounded(f: Format, a: nat, b: nat, m: nat, rest: nat, e: int)
    requires
        f.valid(),
        b > 0,
        a == m * b + rest,
        rest < b,
        m >= pow2((f.fraction + 2) as nat),
    ensures
        ({
            let sticky: nat = if rest > 0 {
                1
            } else {
                0
            };
            let approximate = ratio(2 * m + sticky, e - 1);
            f.rounded(approximate.0, approximate.1) == if e >= 0 {
                f.rounded(a * pow2(e as nat), b)
            } else {
                f.rounded(a, b * pow2((-e) as nat))
            }
        }),
{
    let sticky: nat = if rest > 0 {
        1
    } else {
        0
    };
    let full = 2 * m + sticky;
    let t = top_bit(m);
    lemma_pow2_pos((f.fraction + 2) as nat);
    lemma_top_bit_bounds(m);
    if t < f.fraction + 2 {
        lemma_pow2_ordered(t + 1, (f.fraction + 2) as nat);
        assert(false);
    }
    lemma2_to64();
    if e >= 1 {
        let p = pow2(e as nat);
        let half = pow2((e - 1) as nat);
        lemma_pow2_unfold(e as nat);
        lemma_pow2_pos((e - 1) as nat);
        assert(p == 2 * half);
        // Both integer parts lie between m and m + 1 steps.
        let n = a * p;
        let exact = n / b;
        assert(m * p <= exact < (m + 1) * p) by (nonlinear_arith)
            requires
                a == m * b + rest,
                0 <= rest < b,
                n == a * p,
                exact == n / b,
                p > 0,
                b > 0,
        ;
        let other = full * half;
        assert(m * p <= other < (m + 1) * p) by (nonlinear_arith)
            requires
                full == 2 * m + sticky,
                0 <= sticky <= 1,
                p == 2 * half,
                other == full * half,
                half > 0,
        ;
        lemma_pow2_adds(t, e as nat);
        lemma_pow2_adds(t + 1, e as nat);
        let low = pow2(t);
        let high = pow2(t + 1);
        assert(low * p <= m * p && (m + 1) * p <= high * p) by (nonlinear_arith)
            requires
                low <= m < high,
                p > 0,
        ;
        lemma_top_bit(exact, t + e as nat);
        lemma_top_bit(other, t + e as nat);
        lemma_div_basics(other as int);
        let shift = (t + e - f.fraction) as nat;
        let s = (shift - e) as nat;
        lemma_pow2_adds(s, e as nat);
        lemma_pow2_unfold(s);
        lemma_pow2_pos((s - 1) as nat);
        let h = pow2((s - 1) as nat);
        let d = pow2(s);
        assert(b * d > 0) by (nonlinear_arith)
            requires
                b > 0,
                d > 0,
        ;
        lemma_ratio_scales(a, b * d, p);
        assert((b * d) * p == b * pow2(shift)) by (nonlinear_arith)
            requires
                pow2(shift) == d * p,
        ;
        lemma_ratio_scales(full, 2 * d, half);
        assert((2 * d) * half == 1 * pow2(shift)) by (nonlinear_arith)
            requires
                pow2(shift) == d * p,
                p == 2 * half,
        ;
        lemma_sticky_nearest(a, b, m, rest, h);
    } else {
        let k = pow2((-e) as nat);
        lemma_pow2_pos((-e) as nat);
        lemma_pow2_unfold((1 - e) as nat);
        assert(pow2((1 - e) as nat) == 2 * k);
        assert(k == 1 ==> b * k == b) by (nonlinear_arith);
        assert(a * pow2(0) == a);
        lemma_sticky_floor(a, b, m, rest, sticky, k);
        let top = top_bit(m / k);
        if e == 0 {
            assert(m / k == m) by {
                lemma_div_basics(m as int);
            }
        }
        let shift: nat = if top > f.fraction {
            (top - f.fraction) as nat
        } else {
            0
        };
        let s = (shift - e) as nat;
        assert(s >= 1);
        lemma_pow2_adds((-e) as nat, shift);
        lemma_pow2_unfold(s);
        lemma_pow2_pos((s - 1) as nat);
        let h = pow2((s - 1) as nat);
        lemma_sticky_nearest(a, b, m, rest, h);
        assert((b * k) * pow2(shift) == b * (2 * h)) by (nonlinear_arith)
            requires
                k * pow2(shift) == 2 * h,
        ;
        assert((2 * k) * pow2(shift) == 2 * (2 * h)) by (nonlinear_arith)
            requires
                k * pow2(shift) == 2 * h,
        ;
    }
}

/// A significand with its highest bit in place, and its scale.
struct Normalized {
    significand: u64,
    scale: i32,
}

fn normalized_of(f: Format, magnitude: u64) -> (r: Normalized)
    requires
        f.valid(),
        0 < magnitude < f.infinity(),
    ensures
        pow2(f.fraction as nat) <= r.significand < 2 * pow2(f.fraction as nat),
        -52 <= r.scale <= 2045,
        r.scale >= 0 ==> f.units(magnitude as nat) == r.significand * pow2(r.scale as nat),
        r.scale < 0 ==> f.units(magnitude as nat) * pow2((-r.scale) as nat) == r.significand,
{
    let parts = parts_of(f, magnitude);
    proof {
        lemma_field_bound(f, magnitude as nat);
        lemma_format_bounds(f);
        lemma2_to64();
        lemma2_to64_rest();
    }
    let one = power_of_two(f.fraction) as u64;
    if parts.significand >= one {
        return Normalized { significand: parts.significand, scale: parts.scale as i32 };
    }
    assert(parts.scale == 0 && parts.significand == magnitude);
    assert(f.units(magnitude as nat) == magnitude);
    let bit = highest_bit(parts.significand as u128);
    let missing: u32;
    proof {
        lemma_top_bit_below(magnitude as nat, f.fraction as nat);
    }
    missing = f.fraction - bit;
    let step = power_of_two(missing) as u64;
    proof {
        lemma_top_bit_of_product(magnitude as nat, missing as nat);
        lemma_pow2_ordered(missing as nat, 52);
        lemma_pow2_pos(missing as nat);
        assert(magnitude * pow2(missing as nat) > 0) by (nonlinear_arith)
            requires
                magnitude > 0,
                pow2(missing as nat) > 0,
        ;
        lemma_top_bit_bounds((magnitude * pow2(missing as nat)) as nat);
        lemma_pow2_unfold((f.fraction + 1) as nat);
    }
    Normalized { significand: parts.significand * step, scale: -(missing as i32) }
}

/// The quotient of two numbers, rounded.
pub fn quotient_of(f: Format, a: Signed, b: Signed) -> (r: Signed)
    requires
        f.valid(),
    ensures
        r == f.quotient(a, b),
{
    let negative = a.negative != b.negative;
    let infinity = infinity_of(f);
    if a.magnitude > infinity || b.magnitude > infinity || (a.magnitude == infinity && b.magnitude == infinity) || (
    a.magnitude == 0 && b.magnitude == 0) {
        return undefined_of(f);
    }
    if a.magnitude == infinity || b.magnitude == 0 {
        return Signed { negative, magnitude: infinity };
    }
    if b.magnitude == infinity || a.magnitude == 0 {
        return Signed { negative, magnitude: 0 };
    }
    let first = normalized_of(f, a.magnitude);
    let second = normalized_of(f, b.magnitude);
    let unit = unit_exponent_of(f);
    let spare: u32 = f.fraction + 3;
    let step = power_of_two(spare);
    proof {
        lemma_format_bounds(f);
        lemma2_to64();
        lemma2_to64_rest();
        assert(first.significand * step <= 0x20_0000_0000_0000 * 0x80_0000_0000_0000) by (nonlinear_arith)
            requires
                first.significand <= 0x20_0000_0000_0000,
                step <= 0x80_0000_0000_0000,
        ;
    }
    let scaled: u128 = first.significand as u128 * step;
    let divisor: u128 = second.significand as u128;
    let m: u128 = scaled / divisor;
    let rest: u128 = scaled % divisor;
    let e: i32 = first.scale - second.scale + unit as i32 - spare as i32;
    proof {
        let one = pow2(f.fraction as nat);
        lemma_fundamental_div_mod(scaled as int, divisor as int);
        lemma_pow2_adds(2, f.fraction as nat);
        lemma_pow2_adds(3, f.fraction as nat);
        assert(m >= 4 * one) by (nonlinear_arith)
            requires
                first.significand >= one,
                divisor < 2 * one,
                step == 8 * one,
                scaled == first.significand * step,
                scaled == divisor * m + rest,
                rest < divisor,
                one > 0,
        ;
        assert(m <= scaled) by (nonlinear_arith)
            requires
                scaled == divisor * m + rest,
                divisor >= 1,
                rest >= 0,
        ;
        lemma_pow2_adds(60, 60);
        lemma_sticky_rounded(f, scaled as nat, divisor as nat, m as nat, rest as nat, e as int);
        lemma_quotient_frames(f, a.magnitude as nat, b.magnitude as nat, first, second, scaled as nat, e as int);
    }
    let sticky: u128 = if rest > 0 {
        1
    } else {
        0
    };
    let magnitude = round_exact(f, 2 * m + sticky, e - 1);
    Signed { negative, magnitude }
}

/// The quotient of two numbers of units is that of their significands, scaled.
proof fn lemma_quotient_frames(
    f: Format,
    a: nat,
    b: nat,
    first: Normalized,
    second: Normalized,
    scaled: nat,
    e: int,
)
    requires
        f.valid(),
        first.significand > 0,
        second.significand > 0,
        -52 <= first.scale,
        -52 <= second.scale,
        first.scale >= 0 ==> f.units(a) == first.significand * pow2(first.scale as nat),
        first.scale < 0 ==> f.units(a) * pow2((-first.scale) as nat) == first.significand,
        second.scale >= 0 ==> f.units(b) == second.significand * pow2(second.scale as nat),
        second.scale < 0 ==> f.units(b) * pow2((-second.scale) as nat) == second.significand,
        scaled == first.significand * pow2((f.fraction + 3) as nat),
        e == first.scale - second.scale + f.unit_exponent() - (f.fraction + 3),
    ensures
        f.rounded(f.units(a) * pow2(f.unit_exponent()), f.units(b)) == if e >= 0 {
            f.rounded(scaled * pow2(e as nat), second.significand as nat)
        } else {
            f.rounded(scaled, second.significand as nat * pow2((-e) as nat))
        },
{
    // Both sides are brought to exponents that are not negative.
    let offset: nat = 52;
    let up = pow2(offset);
    lemma_pow2_pos(offset);
    let ua = f.units(a);
    let ub = f.units(b);
    let unit = f.unit_exponent();
    let spare = (f.fraction + 3) as nat;
    lemma_lifted(ua, first.significand as nat, first.scale as int, offset);
    lemma_lifted(ub, second.significand as nat, second.scale as int, offset);
    let x = (first.scale + offset + unit) as nat;
    let y = (second.scale + offset + spare) as nat;
    lemma_pow2_adds((first.scale + offset) as nat, unit);
    lemma_pow2_adds((second.scale + offset) as nat, spare);
    let ps = pow2(spare);
    lemma_pow2_pos(spare);
    let n = ua * pow2(unit);
    lemma_pow2_pos((second.scale + offset) as nat);
    assert(ub > 0) by (nonlinear_arith)
        requires
            ub * up == second.significand * pow2((second.scale + offset) as nat),
            second.significand > 0,
            pow2((second.scale + offset) as nat) > 0,
            up > 0,
            ub >= 0,
    ;
    let c = up * ps;
    assert(c > 0) by (nonlinear_arith)
        requires
            up > 0,
            ps > 0,
            c == up * ps,
    ;
    lemma_rounded_scales(f, n, ub, c);
    let lifted_n = scaled * pow2(x);
    let lifted_d = second.significand as nat * pow2(y);
    assert(n * c == lifted_n) by (nonlinear_arith)
        requires
            n == ua * pow2(unit),
            c == up * ps,
            ua * up == first.significand * pow2((first.scale + offset) as nat),
            scaled == first.significand * ps,
            lifted_n == scaled * pow2(x),
            pow2(x) == pow2((first.scale + offset) as nat) * pow2(unit),
    ;
    assert(ub * c == lifted_d) by (nonlinear_arith)
        requires
            c == up * ps,
            ub * up == second.significand * pow2((second.scale + offset) as nat),
            lifted_d == second.significand * pow2(y),
            pow2(y) == pow2((second.scale + offset) as nat) * ps,
    ;
    assert(x - y == e);
    if e >= 0 {
        lemma_pow2_adds(e as nat, y);
        lemma_pow2_pos(y);
        lemma_rounded_scales(f, scaled * pow2(e as nat), second.significand as nat, pow2(y));
        assert(lifted_n == (scaled * pow2(e as nat)) * pow2(y)) by (nonlinear_arith)
            requires
                lifted_n == scaled * pow2(x),
                pow2(x) == pow2(e as nat) * pow2(y),
        ;
    } else {
        lemma_pow2_adds((-e) as nat, x);
        lemma_pow2_pos(x);
        lemma_pow2_pos((-e) as nat);
        let d = second.significand as nat * pow2((-e) as nat);
        assert(d > 0) by (nonlinear_arith)
            requires
                d == second.significand * pow2((-e) as nat),
                second.significand > 0,
                pow2((-e) as nat) > 0,
        ;
        lemma_rounded_scales(f, scaled, d, pow2(x));
        assert(lifted_d == d * pow2(x)) by (nonlinear_arith)
            requires
                lifted_d == second.significand * pow2(y),
                pow2(y) == pow2((-e) as nat) * pow2(x),
                d == second.significand * pow2((-e) as nat),
        ;
    }
}

proof fn lemma_lifted(units: nat, significand: nat, scale: int, offset: nat)
    requires
        scale + offset >= 0,
        scale >= 0 ==> units == significand * pow2(scale as nat),
        scale < 0 ==> units * pow2((-scale) as nat) == significand,
    ensures
        units * pow2(offset) == significand * pow2((scale + offset) as nat),
{
    if scale >= 0 {
        lemma_pow2_adds(scale as nat, offset);
        assert(units * pow2(offset) == significand * (pow2(scale as nat) * pow2(offset))) by (nonlinear_arith)
            requires
                units == significand * pow2(scale as nat),
        ;
    } else {
        lemma_pow2_adds((scale + offset) as nat, (-scale) as nat);
        let rest = pow2((scale + offset) as nat);
        let p = pow2((-scale) as nat);
        assert(units * (rest * p) == (units * p) * rest) by (nonlinear_arith);
    }
}

} // verus!
