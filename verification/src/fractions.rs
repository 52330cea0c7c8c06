//! Numbers whose arithmetic needs no rounding, and the order of results that
//! are rounded.
//!
//! A number that is a whole multiple of a power of two, with a numerator that
//! the significand holds, is held exactly. Sums and products of such numbers
//! that are such numbers again are the sums and products of arithmetic.

use crate::ieee::{
    lemma_format_bounds, lemma_rounded_of_units, lemma_rounded_scales, lemma_top_bit_bounds,
    lemma_top_bit_of_product, nearest_even, single_format, top_bit, Format,
};
use crate::single::{magnitude, order_key, Single, INFINITY_BITS};
use vstd::arithmetic::div_mod::{lemma_fundamental_div_mod, lemma_fundamental_div_mod_converse};
use vstd::arithmetic::power2::{
    lemma2_to64, lemma2_to64_rest, lemma_pow2_adds, lemma_pow2_pos, lemma_pow2_strictly_increases, pow2,
};
use vstd::prelude::*;

verus! {

/// The numerators that a number holds exactly are below this.
pub open spec fn numerators() -> int {
    0x100_0000
}

/// The numerator fits into a number.
pub open spec fn fits(n: int) -> bool {
    -numerators() < n < numerators()
}

/// The value of a finite number, in units of the least positive one.
pub open spec fn units_of(x: Single) -> int {
    single_format().value(x.signed())
}

/// The number is exactly `n / 2^k`.
pub open spec fn fraction(x: Single, n: int, k: nat) -> bool {
    x.spec_finite() && units_of(x) * pow2(k) == n * pow2(149)
}

/// The number is exactly the integer `n`.
pub open spec fn whole(x: Single, n: int) -> bool {
    fraction(x, n, 0)
}

proof fn lemma_rounded_exactly(n: nat, e: nat)
    requires
        n < numerators(),
        e <= 149,
    ensures
        single_format().rounded(n * pow2(e), 1) < INFINITY_BITS,
        single_format().units(single_format().rounded(n * pow2(e), 1)) == n * pow2(e),
{
    let f = single_format();
    let one = pow2(23);
    lemma_format_bounds(f);
    lemma2_to64();
    lemma2_to64_rest();
    lemma_pow2_pos(e);
    let exact = n * pow2(e);
    assert(exact / 1 == exact) by {
        lemma_fundamental_div_mod_converse(exact as int, 1, exact as int, 0);
    }
    if n == 0 {
        assert(exact == 0);
        assert(top_bit(0) == 0);
        assert(pow2(0) == 1);
        assert(nearest_even(0, 1) == 0);
        assert(f.rounded(0, 1) == 0);
        assert(f.significand(0) == 0);
        assert(f.units(0) == 0);
    } else {
        let t = top_bit(n);
        lemma_top_bit_bounds(n);
        if t >= 24 {
            if t > 24 {
                lemma_pow2_strictly_increases(24, t);
            }
            assert(false);
        }
        lemma_top_bit_of_product(n, e);
        let top = t + e;
        assert(top_bit(exact) == top);
        if top > 23 {
            let shift = (top - 23) as nat;
            lemma_pow2_pos(shift);
            if e >= shift {
                let rest = (e - shift) as nat;
                lemma_pow2_adds(rest, shift);
                let part = n * pow2(rest);
                assert(exact == part * pow2(shift)) by (nonlinear_arith)
                    requires
                        exact == n * pow2(e),
                        pow2(e) == pow2(rest) * pow2(shift),
                        part == n * pow2(rest),
                ;
                crate::ieee::lemma_exact_ratio(part, pow2(shift));
                assert(1 * pow2(shift) == pow2(shift));
                lemma_pow2_adds(t, rest);
                lemma_pow2_adds((t + 1) as nat, rest);
                lemma_pow2_pos(rest);
                assert(pow2(23) <= part < pow2(24)) by (nonlinear_arith)
                    requires
                        pow2(t) <= n < pow2((t + 1) as nat),
                        part == n * pow2(rest),
                        pow2(t) * pow2(rest) == pow2(23),
                        pow2((t + 1) as nat) * pow2(rest) == pow2(24),
                        pow2(rest) > 0,
                ;
                let m = shift * one + part;
                assert(m == (shift + 1) * one + (part - one)) by (nonlinear_arith)
                    requires
                        m == shift * one + part,
                ;
                lemma_fundamental_div_mod_converse(m as int, one as int, shift as int + 1, part - one);
                assert(shift <= 150);
                assert(m < INFINITY_BITS) by (nonlinear_arith)
                    requires
                        m == shift * one + part,
                        shift <= 150,
                        part < 0x100_0000,
                        one == 0x80_0000,
                ;
                assert(f.rounded(exact, 1) == m);
                assert(f.significand(m) == part);
                assert(f.scale(m) == shift);
            }
        } else {
            assert(pow2(0) == 1);
            assert(nearest_even(exact, 1) == exact) by {
                lemma_fundamental_div_mod_converse(exact as int, 1, exact as int, 0);
            }
            lemma_top_bit_bounds(exact);
            if top + 1 < 24 {
                lemma_pow2_strictly_increases((top + 1) as nat, 24);
            }
            assert(exact < pow2(24));
            assert(f.rounded(exact, 1) == exact) by (nonlinear_arith)
                requires
                    f.rounded(exact, 1) == 0 * one + exact,
            ;
            if exact < one {
                assert(exact / one == 0) by {
                    lemma_fundamental_div_mod_converse(exact as int, one as int, 0, exact as int);
                }
            } else {
                lemma_fundamental_div_mod_converse(exact as int, one as int, 1, exact - one);
            }
            assert(f.scale(exact) == 0);
            assert(f.significand(exact) == exact);
        }
    }
}

/// The units of a fraction.
proof fn lemma_units(x: Single, n: int, k: nat)
    requires
        fraction(x, n, k),
        k <= 149,
    ensures
        units_of(x) == n * pow2((149 - k) as nat),
{
    lemma_pow2_adds((149 - k) as nat, k);
    lemma_pow2_pos(k);
    let u = units_of(x);
    let p = pow2(k) as int;
    let q = pow2((149 - k) as nat) as int;
    assert(u == n * q) by (nonlinear_arith)
        requires
            u * p == n * (q * p),
            p > 0,
    ;
}

proof fn lemma_fraction_of_units(x: Single, n: int, k: nat)
    requires
        x.spec_finite(),
        k <= 149,
        units_of(x) == n * pow2((149 - k) as nat),
    ensures
        fraction(x, n, k),
{
    lemma_pow2_adds((149 - k) as nat, k);
    let u = units_of(x);
    let p = pow2(k) as int;
    let q = pow2((149 - k) as nat) as int;
    assert(u * p == n * (q * p)) by (nonlinear_arith)
        requires
            u == n * q,
    ;
}

/// The sum of two fractions is a fraction, as far as its numerator fits.
pub proof fn law_fractions_add_exactly(a: Single, b: Single, m: int, n: int, k: nat)
    requires
        fraction(a, m, k),
        fraction(b, n, k),
        fits(m + n),
        k <= 149,
    ensures
        fraction(a.spec_plus(b), m + n, k),
{
    reveal(Single::spec_plus);
    let f = single_format();
    lemma_format_bounds(f);
    lemma_units(a, m, k);
    lemma_units(b, n, k);
    let e = (149 - k) as nat;
    let p = pow2(e) as int;
    let exact = units_of(a) + units_of(b);
    lemma_pow2_pos(e);
    assert(exact == (m + n) * p) by (nonlinear_arith)
        requires
            units_of(a) == m * p,
            units_of(b) == n * p,
            exact == units_of(a) + units_of(b),
    ;
    let r = a.spec_plus(b);
    if m + n == 0 {
        assert(exact == 0) by (nonlinear_arith)
            requires
                exact == (m + n) * p,
                m + n == 0,
        ;
        lemma_rounded_exactly(0, e);
        assert(magnitude(r.bits) == 0);
        lemma_zero_units(r);
    } else if m + n > 0 {
        assert(exact > 0) by (nonlinear_arith)
            requires
                exact == (m + n) * p,
                m + n > 0,
                p > 0,
        ;
        lemma_rounded_exactly((m + n) as nat, e);
    } else {
        assert(exact < 0) by (nonlinear_arith)
            requires
                exact == (m + n) * p,
                m + n < 0,
                p > 0,
        ;
        assert(-exact == (-(m + n)) * p) by (nonlinear_arith)
            requires
                exact == (m + n) * p,
        ;
        lemma_rounded_exactly((-(m + n)) as nat, e);
    }
    assert(r.spec_finite());
    assert(units_of(r) == (m + n) * p);
    lemma_fraction_of_units(r, m + n, k);
}

proof fn lemma_zero_units(x: Single)
    requires
        magnitude(x.bits) == 0,
    ensures
        units_of(x) == 0,
        x.spec_finite(),
{
    lemma_format_bounds(single_format());
    let f = single_format();
    assert(f.significand(0) == 0);
    assert(f.units(0) == 0) by (nonlinear_arith)
        requires
            f.units(0) == f.significand(0) * pow2(f.scale(0)),
            f.significand(0) == 0,
    ;
}

/// The product of two fractions is a fraction, as far as its numerator fits.
pub proof fn law_fractions_multiply_exactly(a: Single, b: Single, m: int, n: int, j: nat, k: nat)
    requires
        fraction(a, m, j),
        fraction(b, n, k),
        fits(m * n),
        j + k <= 149,
    ensures
        fraction(a.spec_times(b), m * n, j + k),
{
    reveal(Single::spec_times);
    let f = single_format();
    lemma_format_bounds(f);
    lemma_units(a, m, j);
    lemma_units(b, n, k);
    let x = f.units(a.signed().magnitude as nat);
    let y = f.units(b.signed().magnitude as nat);
    let p = pow2((149 - j) as nat);
    let q = pow2((149 - k) as nat);
    let e = (149 - j - k) as nat;
    let up = if m < 0 {
        (-m) as nat
    } else {
        m as nat
    };
    let down = if n < 0 {
        (-n) as nat
    } else {
        n as nat
    };
    lemma_pow2_pos((149 - j) as nat);
    lemma_pow2_pos((149 - k) as nat);
    lemma_pow2_pos(149);
    lemma_pow2_pos(e);
    assert(x == up * p) by (nonlinear_arith)
        requires
            units_of(a) == m * p,
            units_of(a) == x || units_of(a) == -x,
            x >= 0,
            p > 0,
            up == m || up == -m,
            up >= 0,
    ;
    assert(y == down * q) by (nonlinear_arith)
        requires
            units_of(b) == n * q,
            units_of(b) == y || units_of(b) == -y,
            y >= 0,
            q > 0,
            down == n || down == -n,
            down >= 0,
    ;
    lemma_pow2_adds((149 - j) as nat, (149 - k) as nat);
    lemma_pow2_adds(e, 149);
    assert(p * q == pow2(e) * pow2(149));
    let size = up * down;
    assert(size == m * n || size == -(m * n)) by (nonlinear_arith)
        requires
            up == m || up == -m,
            down == n || down == -n,
            size == up * down,
    ;
    assert(x * y == (size * pow2(e)) * pow2(149)) by (nonlinear_arith)
        requires
            x == up * p,
            y == down * q,
            p * q == pow2(e) * pow2(149),
            size == up * down,
    ;
    assert(size >= 0);
    lemma_rounded_scales(f, size * pow2(e), 1, pow2(149));
    assert(1 * pow2(149) == pow2(149));
    lemma_rounded_exactly(size, e);
    let r = a.spec_times(b);
    assert(r.spec_finite());
    let u = units_of(r);
    assert(u == size * pow2(e) || u == -(size * pow2(e)));
    assert(u == (m * n) * pow2(e)) by {
        let negative = a.signed().negative != b.signed().negative;
        assert(u == if negative {
            -(size * pow2(e))
        } else {
            (size * pow2(e)) as int
        });
        if m == 0 || n == 0 {
            assert(size == 0) by (nonlinear_arith)
                requires
                    size == up * down,
                    up == 0 || down == 0,
            ;
            assert(m * n == 0) by (nonlinear_arith)
                requires
                    m == 0 || n == 0,
            ;
            assert(size * pow2(e) == 0) by (nonlinear_arith)
                requires
                    size == 0,
            ;
            assert((m * n) * pow2(e) == 0) by (nonlinear_arith)
                requires
                    m * n == 0,
            ;
        } else {
            lemma_sign(a, m, p as int);
            lemma_sign(b, n, q as int);
            assert(negative == (m * n < 0)) by (nonlinear_arith)
                requires
                    negative == ((m < 0) != (n < 0)),
                    m != 0,
                    n != 0,
            ;
            assert(size >= 0);
            if negative {
                assert(size == -(m * n));
                assert(-(size * pow2(e)) == (m * n) * pow2(e)) by (nonlinear_arith)
                    requires
                        size == -(m * n),
                ;
            } else {
                assert(size == m * n);
            }
        }
    }
    lemma_fraction_of_units(r, m * n, j + k);
}

proof fn lemma_sign(x: Single, n: int, p: int)
    requires
        units_of(x) == n * p,
        p > 0,
        n != 0,
    ensures
        x.signed().negative == (n < 0),
{
    let u = single_format().units(x.signed().magnitude as nat) as int;
    assert(u >= 0);
    if n < 0 {
        assert(n * p < 0) by (nonlinear_arith)
            requires
                n < 0,
                p > 0,
        ;
    } else {
        assert(n * p > 0) by (nonlinear_arith)
            requires
                n > 0,
                p > 0,
        ;
    }
}

/// The opposite of a fraction.
pub proof fn law_fractions_negate_exactly(a: Single, n: int, k: nat)
    requires
        fraction(a, n, k),
    ensures
        fraction(a.spec_negated(), -n, k),
{
    let u = units_of(a);
    assert(units_of(a.spec_negated()) == -u);
    let p = pow2(k) as int;
    let q = pow2(149) as int;
    assert((-u) * p == (-n) * q) by (nonlinear_arith)
        requires
            u * p == n * q,
    ;
}

/// The difference of two fractions is a fraction, as far as its numerator fits.
pub proof fn law_fractions_subtract_exactly(a: Single, b: Single, m: int, n: int, k: nat)
    requires
        fraction(a, m, k),
        fraction(b, n, k),
        fits(m - n),
        k <= 149,
    ensures
        fraction(a.spec_minus(b), m - n, k),
{
    law_fractions_negate_exactly(b, n, k);
    law_fractions_add_exactly(a, b.spec_negated(), m, -n, k);
}

/// A fraction with a larger denominator.
pub proof fn law_fractions_extend(a: Single, n: int, k: nat, i: nat)
    ensures
        fraction(a, n, k) <==> fraction(a, n * pow2(i), k + i),
{
    lemma_pow2_adds(k, i);
    lemma_pow2_pos(i);
    let u = units_of(a);
    let p = pow2(k) as int;
    let q = pow2(i) as int;
    let r = pow2(149) as int;
    assert((u * p == n * r) <==> (u * (p * q) == (n * q) * r)) by (nonlinear_arith)
        requires
            q > 0,
    ;
}

/// Zero is the fraction zero, and one the fraction one.
pub proof fn law_zero_and_one_are_whole()
    ensures
        whole(Single { bits: 0 }, 0),
        whole(Single { bits: crate::single::ONE_BITS }, 1),
{
    lemma2_to64();
    lemma2_to64_rest();
    let f = single_format();
    lemma_format_bounds(f);
    lemma_zero_units(Single { bits: 0 });
    assert(0 * pow2(149) == 0);
    let m: nat = 0x3f80_0000;
    lemma_fundamental_div_mod_converse(0x3f80_0000, 0x80_0000, 127, 0);
    assert(f.scale(m) == 126);
    assert(f.significand(m) == 0x80_0000);
    lemma_pow2_adds(23, 126);
    assert(f.units(m) == pow2(23) * pow2(126));
    assert(units_of(Single { bits: crate::single::ONE_BITS }) == pow2(149));
    assert(pow2(0) == 1);
}

/// A number with the exponent field `e` and the significand `n * 2^s` is
/// `n / 2^k`.
pub proof fn law_bits_hold_a_fraction(x: Single, e: nat, n: nat, s: nat, k: nat)
    requires
        0 < e < 255,
        0x80_0000 <= n * pow2(s) < 0x100_0000,
        x.bits == (e - 1) * 0x80_0000 + n * pow2(s),
        e + k + s == 150,
    ensures
        fraction(x, n as int, k),
{
    lemma2_to64();
    lemma2_to64_rest();
    let f = single_format();
    lemma_format_bounds(f);
    let m = x.bits as nat;
    lemma_fundamental_div_mod_converse(m as int, 0x80_0000, e as int, n * pow2(s) - 0x80_0000);
    assert(f.scale(m) == e - 1);
    assert(f.significand(m) == n * pow2(s));
    let u = units_of(x);
    let p = pow2((e - 1) as nat) as int;
    let q = pow2(s) as int;
    let r = pow2(k) as int;
    assert(u == (n * q) * p);
    lemma_pow2_adds(s, (e - 1) as nat);
    lemma_pow2_adds((s + e - 1) as nat, k);
    assert((n * q) * p * r == n * ((q * p) * r)) by (nonlinear_arith);
}

/// An integer whose numerator fits is held exactly.
pub proof fn law_integers_are_whole(n: i64)
    requires
        fits(n as int),
    ensures
        whole(Single::spec_from_integer(n), n as int),
{
    let size = if n < 0 {
        (-n) as nat
    } else {
        n as nat
    };
    reveal(Single::spec_from_natural);
    lemma_rounded_exactly(size, 149);
    let x = Single::spec_from_natural(size);
    assert(x.spec_finite());
    assert(units_of(x) == size * pow2(149));
    assert(pow2(0) == 1) by {
        lemma2_to64();
    }
    lemma_fraction_of_units(x, size as int, 0);
    if n < 0 {
        law_fractions_negate_exactly(x, size as int, 0);
    }
}

proof fn lemma_nearest_ordered(n: nat, m: nat, d: nat)
    requires
        n <= m,
        d > 0,
    ensures
        nearest_even(n, d) <= nearest_even(m, d),
{
    lemma_fundamental_div_mod(n as int, d as int);
    lemma_fundamental_div_mod(m as int, d as int);
    let q = n / d;
    let r = n % d;
    let s = m / d;
    let t = m % d;
    if q > s {
        assert(false) by (nonlinear_arith)
            requires
                n <= m,
                n == d * q + r,
                m == d * s + t,
                0 <= r < d,
                0 <= t < d,
                q > s,
                d > 0,
        ;
    }
    if q == s {
        assert(r <= t) by (nonlinear_arith)
            requires
                n <= m,
                n == d * q + r,
                m == d * s + t,
                q == s,
        ;
    }
}

/// How far a ratio is scaled before it is rounded.
spec fn shift_of(f: Format, n: nat, d: nat) -> nat {
    let top = top_bit(n / d);
    if top > f.fraction {
        (top - f.fraction) as nat
    } else {
        0
    }
}

proof fn lemma_top_bit_ordered(n: nat, m: nat)
    requires
        n <= m,
    ensures
        top_bit(n) <= top_bit(m),
    decreases m,
{
    if m >= 2 && n >= 2 {
        lemma_top_bit_ordered(n / 2, m / 2);
    }
}

/// The rounded part of a scaled ratio lies between one and two.
proof fn lemma_part_bounds(f: Format, n: nat, d: nat)
    requires
        f.valid(),
        d > 0,
    ensures
        nearest_even(n, d * pow2(shift_of(f, n, d))) <= 2 * pow2(f.fraction as nat),
        shift_of(f, n, d) > 0 ==> nearest_even(n, d * pow2(shift_of(f, n, d))) >= pow2(f.fraction as nat),
{
    lemma_format_bounds(f);
    lemma2_to64();
    let one = pow2(f.fraction as nat);
    let shift = shift_of(f, n, d);
    let p = pow2(shift);
    lemma_pow2_pos(shift);
    let q = n / d;
    lemma_fundamental_div_mod(n as int, d as int);
    let c = d * p;
    assert(c > 0) by (nonlinear_arith)
        requires
            c == d * p,
            d > 0,
            p > 0,
    ;
    lemma_fundamental_div_mod(n as int, c as int);
    let whole = n / c;
    lemma_pow2_adds((f.fraction + 1) as nat, shift);
    vstd::arithmetic::power2::lemma_pow2_unfold((f.fraction + 1) as nat);
    assert(q < (2 * one) * p) by {
        if q > 0 {
            lemma_top_bit_bounds(q);
            let t = top_bit(q);
            if t + 1 < f.fraction + 1 + shift {
                lemma_pow2_strictly_increases((t + 1) as nat, (f.fraction + 1 + shift) as nat);
            }
        } else {
            assert((2 * one) * p > 0) by (nonlinear_arith)
                requires
                    one > 0,
                    p > 0,
            ;
        }
    }
    assert(whole < 2 * one) by (nonlinear_arith)
        requires
            n < d * q + d,
            q + 1 <= (2 * one) * p,
            n == c * whole + n % c,
            n % c >= 0,
            c == d * p,
            d > 0,
            p > 0,
    ;
    if shift > 0 {
        lemma_top_bit_bounds(q);
        lemma_pow2_adds(f.fraction as nat, shift);
        assert(q >= one * p);
        assert(whole >= one) by (nonlinear_arith)
            requires
                n >= d * q,
                q >= one * p,
                n == c * whole + n % c,
                n % c < c,
                c == d * p,
                d > 0,
                p > 0,
        ;
    }
}

/// A larger ratio does not round to a smaller magnitude.
pub proof fn lemma_rounding_is_ordered(f: Format, n: nat, m: nat, d: nat)
    requires
        f.valid(),
        n <= m,
        d > 0,
    ensures
        f.rounded(n, d) <= f.rounded(m, d),
{
    lemma_format_bounds(f);
    let one = pow2(f.fraction as nat);
    let a = shift_of(f, n, d);
    let b = shift_of(f, m, d);
    lemma_fundamental_div_mod(n as int, d as int);
    lemma_fundamental_div_mod(m as int, d as int);
    assert(n / d <= m / d) by {
        vstd::arithmetic::div_mod::lemma_div_is_ordered(n as int, m as int, d as int);
    }
    lemma_top_bit_ordered(n / d, m / d);
    lemma_pow2_pos(a);
    assert(d * pow2(a) > 0) by (nonlinear_arith)
        requires
            d > 0,
            pow2(a) > 0,
    ;
    if a == b {
        lemma_nearest_ordered(n, m, d * pow2(a));
    } else {
        lemma_part_bounds(f, n, d);
        lemma_part_bounds(f, m, d);
        let low = nearest_even(n, d * pow2(a));
        let high = nearest_even(m, d * pow2(b));
        assert(a * one + low <= b * one + high) by (nonlinear_arith)
            requires
                a + 1 <= b,
                low <= 2 * one,
                high >= one,
                one > 0,
        ;
    }
}

/// Magnitudes and their values are ordered alike.
proof fn lemma_units_ordered(a: nat, b: nat)
    requires
        a < INFINITY_BITS,
        b < INFINITY_BITS,
    ensures
        a < b <==> single_format().units(a) < single_format().units(b),
        a == b <==> single_format().units(a) == single_format().units(b),
{
    let f = single_format();
    lemma_format_bounds(f);
    lemma_rounded_of_units(f, a);
    lemma_rounded_of_units(f, b);
    if f.units(a) <= f.units(b) {
        lemma_rounding_is_ordered(f, f.units(a), f.units(b), 1);
    }
    if f.units(b) <= f.units(a) {
        lemma_rounding_is_ordered(f, f.units(b), f.units(a), 1);
    }
}

/// The order of finite numbers is that of their values.
pub proof fn law_order_is_that_of_values(a: Single, b: Single)
    requires
        a.spec_finite(),
        b.spec_finite(),
    ensures
        a.spec_less(b) <==> units_of(a) < units_of(b),
        a.spec_at_most(b) <==> units_of(a) <= units_of(b),
        a.spec_same(b) <==> units_of(a) == units_of(b),
{
    let x = magnitude(a.bits) as nat;
    let y = magnitude(b.bits) as nat;
    lemma_units_ordered(x, y);
    lemma_units_ordered(0, x);
    lemma_units_ordered(0, y);
    lemma_zero_units(Single { bits: 0 });
}

/// Fractions with one denominator are ordered by their numerators.
pub proof fn law_fractions_are_ordered(a: Single, b: Single, m: int, n: int, k: nat)
    requires
        fraction(a, m, k),
        fraction(b, n, k),
    ensures
        a.spec_less(b) <==> m < n,
        a.spec_at_most(b) <==> m <= n,
        a.spec_same(b) <==> m == n,
{
    law_order_is_that_of_values(a, b);
    let u = units_of(a);
    let v = units_of(b);
    let p = pow2(k) as int;
    let q = pow2(149) as int;
    lemma_pow2_pos(k);
    lemma_pow2_pos(149);
    assert(u < v <==> m < n) by (nonlinear_arith)
        requires
            u * p == m * q,
            v * p == n * q,
            p > 0,
            q > 0,
    ;
    assert(u == v <==> m == n) by (nonlinear_arith)
        requires
            u * p == m * q,
            v * p == n * q,
            p > 0,
            q > 0,
    ;
}

/// The lesser and the greater of two fractions.
pub proof fn law_fractions_compare(a: Single, b: Single, m: int, n: int, k: nat)
    requires
        fraction(a, m, k),
        fraction(b, n, k),
    ensures
        fraction(a.spec_min(b), if m < n {
            m
        } else {
            n
        }, k),
        fraction(a.spec_max(b), if m < n {
            n
        } else {
            m
        }, k),
{
    law_fractions_are_ordered(a, b, m, n, k);
    law_fractions_are_ordered(b, a, n, m, k);
}

/// A value rounded, with its sign.
spec fn rounded_key(v: int) -> int {
    if v >= 0 {
        single_format().rounded(v as nat, 1) as int
    } else {
        -(single_format().rounded((-v) as nat, 1) as int)
    }
}

proof fn lemma_rounded_keys_ordered(v: int, w: int)
    requires
        v <= w,
    ensures
        rounded_key(v) <= rounded_key(w),
{
    let f = single_format();
    if v >= 0 {
        lemma_rounding_is_ordered(f, v as nat, w as nat, 1);
    } else if w < 0 {
        lemma_rounding_is_ordered(f, (-w) as nat, (-v) as nat, 1);
    }
}

proof fn lemma_sum_key(a: Single, b: Single)
    requires
        a.spec_finite(),
        b.spec_finite(),
    ensures
        !a.spec_plus(b).spec_nan(),
        order_key(a.spec_plus(b).bits) == rounded_key(units_of(a) + units_of(b)),
{
    reveal(Single::spec_plus);
    let f = single_format();
    lemma_format_bounds(f);
    lemma2_to64();
    lemma_rounded_exactly(0, 0);
    assert(f.rounded(0, 1) == 0) by {
        assert(0 * pow2(0) == 0);
        lemma_units_ordered(f.rounded(0, 1), 0);
        lemma_zero_units(Single { bits: 0 });
    }
}

/// Adding one finite number to both sides keeps their order.
pub proof fn law_sums_are_ordered(a: Single, b: Single, c: Single)
    requires
        a.spec_at_most(b),
        a.spec_finite(),
        b.spec_finite(),
        c.spec_finite(),
    ensures
        a.spec_plus(c).spec_at_most(b.spec_plus(c)),
        c.spec_plus(a).spec_at_most(c.spec_plus(b)),
{
    law_order_is_that_of_values(a, b);
    lemma_sum_key(a, c);
    lemma_sum_key(b, c);
    lemma_sum_key(c, a);
    lemma_sum_key(c, b);
    lemma_rounded_keys_ordered(units_of(a) + units_of(c), units_of(b) + units_of(c));
}

/// Adding a number that is not negative does not lessen the other.
pub proof fn law_sums_grow(a: Single, b: Single)
    requires
        a.spec_finite(),
        b.spec_finite(),
    ensures
        (Single { bits: 0 }).spec_at_most(b) ==> a.spec_at_most(a.spec_plus(b)),
        b.spec_zero() ==> a.spec_plus(b).spec_same(a) && b.spec_plus(a).spec_same(a),
{
    let zero = Single { bits: 0 };
    lemma_zero_units(zero);
    law_order_is_that_of_values(zero, b);
    lemma_sum_key(a, b);
    lemma_sum_key(b, a);
    let f = single_format();
    lemma_format_bounds(f);
    lemma_rounded_of_units(f, magnitude(a.bits) as nat);
    assert(rounded_key(units_of(a)) == order_key(a.bits)) by {
        lemma_units_ordered(0, magnitude(a.bits) as nat);
        if units_of(a) == 0 {
            assert(magnitude(a.bits) == 0);
        }
    }
    if units_of(b) >= 0 {
        lemma_rounded_keys_ordered(units_of(a), units_of(a) + units_of(b));
    }
    if b.spec_zero() {
        lemma_zero_units(b);
    }
}

proof fn lemma_product_key(a: Single, c: Single)
    requires
        a.spec_finite(),
        c.spec_finite(),
        (Single { bits: 0 }).spec_at_most(c),
    ensures
        !a.spec_times(c).spec_nan(),
        !c.spec_times(a).spec_nan(),
        ({
            let f = single_format();
            let part = f.rounded(
                f.units(magnitude(a.bits) as nat) * f.units(magnitude(c.bits) as nat),
                pow2(149),
            ) as int;
            let key = if units_of(a) < 0 {
                -part
            } else {
                part
            };
            order_key(a.spec_times(c).bits) == key && order_key(c.spec_times(a).bits) == key
        }),
{
    reveal(Single::spec_times);
    let f = single_format();
    lemma_format_bounds(f);
    lemma_zero_units(Single { bits: 0 });
    let x = f.units(magnitude(a.bits) as nat);
    let z = f.units(magnitude(c.bits) as nat);
    assert(x * z == z * x) by (nonlinear_arith);
    lemma_zero_product(a, c);
    lemma_zero_product(c, a);
    lemma_units_ordered(0, magnitude(a.bits) as nat);
}

/// Multiplying both sides by one number that is not negative keeps their
/// order.
pub proof fn law_products_are_ordered(a: Single, b: Single, c: Single)
    requires
        a.spec_at_most(b),
        a.spec_finite(),
        b.spec_finite(),
        c.spec_finite(),
        (Single { bits: 0 }).spec_at_most(c),
    ensures
        a.spec_times(c).spec_at_most(b.spec_times(c)),
        c.spec_times(a).spec_at_most(c.spec_times(b)),
        (Single { bits: 0 }).spec_at_most(a) ==> (Single { bits: 0 }).spec_at_most(a.spec_times(c)),
{
    let f = single_format();
    lemma_product_key(a, c);
    lemma_product_key(b, c);
    law_order_is_that_of_values(a, b);
    law_order_is_that_of_values(Single { bits: 0 }, a);
    lemma_zero_units(Single { bits: 0 });
    let x = f.units(magnitude(a.bits) as nat);
    let y = f.units(magnitude(b.bits) as nat);
    let z = f.units(magnitude(c.bits) as nat);
    lemma_pow2_pos(149);
    if x <= y {
        assert(x * z <= y * z) by (nonlinear_arith)
            requires
                x <= y,
                z >= 0,
        ;
        lemma_rounding_is_ordered(f, x * z, y * z, pow2(149));
    } else {
        assert(y * z <= x * z) by (nonlinear_arith)
            requires
                y <= x,
                z >= 0,
        ;
        lemma_rounding_is_ordered(f, y * z, x * z, pow2(149));
    }
}

/// A product with zero is zero.
proof fn lemma_zero_product(a: Single, b: Single)
    requires
        a.spec_finite(),
        b.spec_finite(),
    ensures
        a.spec_zero() || b.spec_zero() ==> a.spec_times(b).spec_zero(),
{
    if a.spec_zero() || b.spec_zero() {
        reveal(Single::spec_times);
        let f = single_format();
        lemma_format_bounds(f);
        lemma_zero_units(Single { bits: 0 });
        let x = f.units(magnitude(a.bits) as nat);
        let y = f.units(magnitude(b.bits) as nat);
        assert(x * y == 0) by (nonlinear_arith)
            requires
                x == 0 || y == 0,
        ;
        lemma_pow2_pos(149);
        lemma_rounded_scales(f, 0, 1, pow2(149));
        assert(0 * pow2(149) == 0);
        assert(1 * pow2(149) == pow2(149));
        lemma_rounded_of_units(f, 0);
    }
}

/// One times a number is the number, and zero times a number is zero.
pub proof fn law_one_and_zero_multiply(a: Single)
    requires
        a.spec_finite(),
    ensures
        (Single { bits: crate::single::ONE_BITS }).spec_times(a).spec_same(a),
        a.spec_times(Single { bits: crate::single::ONE_BITS }).spec_same(a),
        (Single { bits: 0 }).spec_times(a).spec_zero(),
        a.spec_times(Single { bits: 0 }).spec_zero(),
{
    lemma_zero_product(Single { bits: 0 }, a);
    lemma_zero_product(a, Single { bits: 0 });
    let one = Single { bits: crate::single::ONE_BITS };
    law_zero_and_one_are_whole();
    lemma2_to64();
    assert(units_of(one) == pow2(149));
    reveal(Single::spec_times);
    let f = single_format();
    lemma_format_bounds(f);
    let x = f.units(magnitude(a.bits) as nat);
    lemma_pow2_pos(149);
    lemma_rounded_scales(f, x, 1, pow2(149));
    assert(1 * pow2(149) == pow2(149));
    assert(pow2(149) * x == x * pow2(149)) by (nonlinear_arith);
    lemma_rounded_of_units(f, magnitude(a.bits) as nat);
}

/// Adding zero changes no number, infinities included.
pub proof fn law_zero_adds_nothing(a: Single, zero: Single)
    requires
        !a.spec_nan(),
        zero.spec_zero(),
    ensures
        zero.spec_plus(a).spec_same(a),
        a.spec_plus(zero).spec_same(a),
        !a.spec_zero() ==> zero.spec_plus(a) == a && a.spec_plus(zero) == a,
{
    lemma_format_bounds(single_format());
    if a.spec_finite() {
        law_sums_grow(a, zero);
        if !a.spec_zero() {
            reveal(Single::spec_plus);
            lemma_zero_units(zero);
            lemma_rounded_of_units(single_format(), magnitude(a.bits) as nat);
            lemma_units_ordered(0, magnitude(a.bits) as nat);
            lemma_zero_units(Single { bits: 0 });
        }
    } else {
        reveal(Single::spec_plus);
    }
}

/// The quotient of a product and one of its factors is the other factor.
pub proof fn law_fractions_divide_exactly(a: Single, b: Single, m: int, n: int, j: nat, k: nat)
    requires
        fraction(a, m * n, j + k),
        fraction(b, n, k),
        n != 0,
        fits(m),
        j + k <= 149,
    ensures
        fraction(a.spec_over(b), m, j),
{
    reveal(Single::spec_over);
    let f = single_format();
    lemma_format_bounds(f);
    lemma_units(a, m * n, j + k);
    lemma_units(b, n, k);
    let x = f.units(a.signed().magnitude as nat);
    let y = f.units(b.signed().magnitude as nat);
    let p = pow2((149 - j - k) as nat);
    let q = pow2((149 - k) as nat);
    let e = (149 - j) as nat;
    let up = if m < 0 {
        (-m) as nat
    } else {
        m as nat
    };
    let down = if n < 0 {
        (-n) as nat
    } else {
        n as nat
    };
    lemma_pow2_pos((149 - j - k) as nat);
    lemma_pow2_pos((149 - k) as nat);
    lemma_pow2_pos(149);
    lemma_pow2_pos(e);
    let both = up * down;
    assert(both == m * n || both == -(m * n)) by (nonlinear_arith)
        requires
            up == m || up == -m,
            down == n || down == -n,
            both == up * down,
    ;
    assert(x == both * p) by (nonlinear_arith)
        requires
            units_of(a) == (m * n) * p,
            units_of(a) == x || units_of(a) == -x,
            x >= 0,
            p > 0,
            both == m * n || both == -(m * n),
            both >= 0,
    ;
    assert(y == down * q) by (nonlinear_arith)
        requires
            units_of(b) == n * q,
            units_of(b) == y || units_of(b) == -y,
            y >= 0,
            q > 0,
            down == n || down == -n,
            down >= 0,
    ;
    lemma_pow2_adds((149 - j - k) as nat, 149);
    lemma_pow2_adds((149 - k) as nat, e);
    assert(p * pow2(149) == q * pow2(e));
    assert(y > 0) by (nonlinear_arith)
        requires
            y == down * q,
            down > 0,
            q > 0,
    ;
    let r = a.spec_over(b);
    lemma_zero_units(Single { bits: 0 });
    if m == 0 {
        assert(x == 0) by (nonlinear_arith)
            requires
                x == both * p,
                both == up * down,
                up == 0,
        ;
        lemma_units_ordered(0, a.signed().magnitude as nat);
        lemma_units_ordered(0, b.signed().magnitude as nat);
        lemma_zero_units(r);
        assert(0 * pow2(e) == 0);
        lemma_fraction_of_units(r, 0, j);
    } else {
        assert(both > 0) by (nonlinear_arith)
            requires
                both == up * down,
                up > 0,
                down > 0,
        ;
        assert(x > 0) by (nonlinear_arith)
            requires
                x == both * p,
                both > 0,
                p > 0,
        ;
        lemma_units_ordered(0, a.signed().magnitude as nat);
        lemma_units_ordered(0, b.signed().magnitude as nat);
        assert(x * pow2(149) == (up * pow2(e)) * y) by (nonlinear_arith)
            requires
                x == both * p,
                both == up * down,
                p * pow2(149) == q * pow2(e),
                y == down * q,
        ;
        lemma_rounded_scales(f, up * pow2(e), 1, y);
        assert(1 * y == y);
        lemma_rounded_exactly(up, e);
        assert(m * n != 0) by (nonlinear_arith)
            requires
                m != 0,
                n != 0,
        ;
        lemma_sign(a, m * n, p as int);
        lemma_sign(b, n, q as int);
        assert((m < 0) == ((m * n < 0) != (n < 0))) by (nonlinear_arith)
            requires
                m != 0,
                n != 0,
        ;
        assert(r.spec_finite());
        assert(units_of(r) == m * pow2(e)) by {
            if m < 0 {
                assert(-(up * pow2(e)) == m * pow2(e)) by (nonlinear_arith)
                    requires
                        up == -m,
                ;
            }
        }
        lemma_fraction_of_units(r, m, j);
    }
}

/// A fraction is zero exactly where its numerator is.
pub proof fn law_zero_fractions(x: Single, n: int, k: nat)
    requires
        fraction(x, n, k),
    ensures
        x.spec_zero() <==> n == 0,
{
    let u = units_of(x);
    let p = pow2(k) as int;
    let q = pow2(149) as int;
    lemma_pow2_pos(k);
    lemma_pow2_pos(149);
    assert(u == 0 <==> n == 0) by (nonlinear_arith)
        requires
            u * p == n * q,
            p > 0,
            q > 0,
    ;
    lemma_zero_units(Single { bits: 0 });
    lemma_units_ordered(0, magnitude(x.bits) as nat);
}

/// Zero is the fraction with the numerator zero.
pub proof fn law_zero_is_a_fraction(x: Single, k: nat)
    requires
        x.spec_zero(),
    ensures
        fraction(x, 0, k),
{
    lemma_zero_units(x);
    assert(0 * pow2(k) == 0 && 0 * pow2(149) == 0);
}

/// The difference of numbers that are the same is zero.
pub proof fn law_nothing_lies_between_the_same(a: Single, b: Single)
    requires
        a.spec_finite(),
        b.spec_finite(),
        a.spec_same(b),
    ensures
        a.spec_minus(b).spec_zero(),
{
    reveal(Single::spec_plus);
    law_order_is_that_of_values(a, b);
    lemma_format_bounds(single_format());
    assert(units_of(b.spec_negated()) == -units_of(b));
}

/// Dividing both sides by one positive number keeps their order.
pub proof fn law_quotients_are_ordered(a: Single, b: Single, c: Single)
    requires
        a.spec_at_most(b),
        a.spec_finite(),
        b.spec_finite(),
        c.spec_finite(),
        (Single { bits: 0 }).spec_less(c),
    ensures
        a.spec_over(c).spec_at_most(b.spec_over(c)),
        (Single { bits: 0 }).spec_at_most(a) ==> (Single { bits: 0 }).spec_at_most(a.spec_over(c)),
{
    lemma_quotient_key(a, c);
    lemma_quotient_key(b, c);
    law_order_is_that_of_values(a, b);
    law_order_is_that_of_values(Single { bits: 0 }, a);
    law_order_is_that_of_values(Single { bits: 0 }, c);
    lemma_zero_units(Single { bits: 0 });
    let f = single_format();
    let x = f.units(magnitude(a.bits) as nat);
    let y = f.units(magnitude(b.bits) as nat);
    let z = f.units(magnitude(c.bits) as nat);
    let p = pow2(149);
    if x <= y {
        assert(x * p <= y * p) by (nonlinear_arith)
            requires
                x <= y,
        ;
        lemma_rounding_is_ordered(f, x * p, y * p, z);
    } else {
        assert(y * p <= x * p) by (nonlinear_arith)
            requires
                y <= x,
        ;
        lemma_rounding_is_ordered(f, y * p, x * p, z);
    }
}

proof fn lemma_quotient_key(a: Single, c: Single)
    requires
        a.spec_finite(),
        c.spec_finite(),
        (Single { bits: 0 }).spec_less(c),
    ensures
        !a.spec_over(c).spec_nan(),
        ({
            let f = single_format();
            let part = f.rounded(
                f.units(magnitude(a.bits) as nat) * pow2(149),
                f.units(magnitude(c.bits) as nat),
            ) as int;
            order_key(a.spec_over(c).bits) == if units_of(a) < 0 {
                -part
            } else {
                part
            }
        }),
{
    reveal(Single::spec_over);
    let f = single_format();
    lemma_format_bounds(f);
    lemma_zero_units(Single { bits: 0 });
    let z = f.units(magnitude(c.bits) as nat);
    lemma_units_ordered(0, magnitude(c.bits) as nat);
    lemma_units_ordered(0, magnitude(a.bits) as nat);
    if a.spec_zero() {
        lemma_zero_units(a);
        assert(0 * pow2(149) == 0);
        lemma_rounded_scales(f, 0, 1, z);
        assert(0 * z == 0 && 1 * z == z);
        lemma_rounded_of_units(f, 0);
    }
}

/// A number divided by itself is one.
pub proof fn law_a_number_is_once_itself(a: Single)
    requires
        a.spec_finite(),
        (Single { bits: 0 }).spec_less(a),
    ensures
        a.spec_over(a) == (Single { bits: crate::single::ONE_BITS }),
{
    reveal(Single::spec_over);
    let f = single_format();
    lemma_format_bounds(f);
    lemma_zero_units(Single { bits: 0 });
    lemma_units_ordered(0, magnitude(a.bits) as nat);
    let z = f.units(magnitude(a.bits) as nat);
    lemma_rounded_scales(f, pow2(149), 1, z);
    assert(1 * z == z);
    assert(z * pow2(149) == pow2(149) * z) by (nonlinear_arith);
    law_zero_and_one_are_whole();
    lemma2_to64();
    lemma_rounded_of_units(f, 0x3f80_0000);
    assert(units_of(Single { bits: crate::single::ONE_BITS }) == pow2(149));
}

} // verus!
