//! Whole numbers in double precision, whose arithmetic needs no rounding.

use crate::double::{magnitude, Double, INFINITY_BITS};
use crate::ieee::{
    double_format, lemma_exact_ratio, lemma_format_bounds, lemma_rounded_scales, lemma_top_bit_bounds,
    lemma_top_bit_of_product, nearest_even, top_bit,
};
use vstd::arithmetic::div_mod::lemma_fundamental_div_mod_converse;
use vstd::arithmetic::power2::{
    lemma2_to64, lemma2_to64_rest, lemma_pow2_adds, lemma_pow2_pos, lemma_pow2_strictly_increases, pow2,
};
use vstd::prelude::*;

verus! {

/// The integer has a place in double precision.
pub open spec fn fits_double(n: int) -> bool {
    -0x20_0000_0000_0000 < n < 0x20_0000_0000_0000
}

/// The value of a finite number, in units of the least positive one.
pub open spec fn double_units(x: Double) -> int {
    double_format().value(x.signed())
}

/// The number is exactly the integer `n`.
pub open spec fn whole_double(x: Double, n: int) -> bool {
    x.spec_finite() && double_units(x) == n * pow2(1074)
}

proof fn lemma_rounded_wholly(n: nat)
    requires
        n < 0x20_0000_0000_0000,
    ensures
        double_format().rounded(n * pow2(1074), 1) < INFINITY_BITS,
        double_format().units(double_format().rounded(n * pow2(1074), 1)) == n * pow2(1074),
        n == 0 ==> double_format().rounded(n * pow2(1074), 1) == 0,
{
    let f = double_format();
    let one = pow2(52);
    let e: nat = 1074;
    lemma_format_bounds(f);
    lemma2_to64();
    lemma2_to64_rest();
    lemma_pow2_pos(e);
    let exact = n * pow2(e);
    assert(exact / 1 == exact) by {
        lemma_fundamental_div_mod_converse(exact as int, 1, exact as int, 0);
    }
    if n == 0 {
        assert(exact == 0);
        assert(top_bit(0) == 0);
        assert(pow2(0) == 1);
        assert(nearest_even(0, 1) == 0);
        assert(f.rounded(0, 1) == 0);
        assert(f.significand(0) == 0);
        assert(f.units(0) == 0);
    } else {
        let t = top_bit(n);
        lemma_top_bit_bounds(n);
        if t >= 53 {
            if t > 53 {
                lemma_pow2_strictly_increases(53, t);
            }
            assert(false);
        }
        lemma_top_bit_of_product(n, e);
        let shift = (t + e - 52) as nat;
        lemma_pow2_pos(shift);
        let rest = (e - shift) as nat;
        lemma_pow2_adds(rest, shift);
        let part = n * pow2(rest);
        assert(exact == part * pow2(shift)) by (nonlinear_arith)
            requires
                exact == n * pow2(e),
                pow2(e) == pow2(rest) * pow2(shift),
                part == n * pow2(rest),
        ;
        lemma_exact_ratio(part, pow2(shift));
        assert(1 * pow2(shift) == pow2(shift));
        lemma_pow2_adds(t, rest);
        lemma_pow2_adds((t + 1) as nat, rest);
        lemma_pow2_pos(rest);
        assert(pow2(52) <= part < pow2(53)) by (nonlinear_arith)
            requires
                pow2(t) <= n < pow2((t + 1) as nat),
                part == n * pow2(rest),
                pow2(t) * pow2(rest) == pow2(52),
                pow2((t + 1) as nat) * pow2(rest) == pow2(53),
                pow2(rest) > 0,
        ;
        let m = shift * one + part;
        assert(m == (shift + 1) * one + (part - one)) by (nonlinear_arith)
            requires
                m == shift * one + part,
        ;
        lemma_fundamental_div_mod_converse(m as int, one as int, shift as int + 1, part - one);
        assert(m < INFINITY_BITS) by (nonlinear_arith)
            requires
                m == shift * one + part,
                shift <= 1074,
                part < 0x20_0000_0000_0000,
                one == 0x10_0000_0000_0000,
                INFINITY_BITS == 0x7ff0_0000_0000_0000u64,
        ;
        assert(f.rounded(exact, 1) == m);
        assert(f.significand(m) == part);
        assert(f.scale(m) == shift);
    }
}

proof fn lemma_signs(x: Double, n: int)
    requires
        whole_double(x, n),
    ensures
        n > 0 ==> !x.signed().negative && x.signed().magnitude > 0,
        n < 0 ==> x.signed().negative && x.signed().magnitude > 0,
        n >= 0 ==> double_format().units(x.signed().magnitude as nat) == n * pow2(1074),
        n <= 0 ==> double_format().units(x.signed().magnitude as nat) == (-n) * pow2(1074),
        n == 0 ==> x.signed().magnitude == 0,
{
    let f = double_format();
    lemma_format_bounds(f);
    lemma_pow2_pos(1074);
    let p = pow2(1074) as int;
    let u = f.units(x.signed().magnitude as nat) as int;
    assert(n > 0 ==> n * p > 0) by (nonlinear_arith)
        requires
            p > 0,
    ;
    assert(n < 0 ==> n * p < 0) by (nonlinear_arith)
        requires
            p > 0,
    ;
    assert((-n) * p == -(n * p)) by (nonlinear_arith);
    assert(n == 0 ==> n * p == 0);
    assert(f.units(0) == 0) by {
        assert(f.significand(0) == 0);
    }
    if n == 0 {
        let m = x.signed().magnitude as nat;
        let one = pow2(52);
        lemma_pow2_pos(f.scale(m));
        assert(u == f.significand(m) * pow2(f.scale(m)));
        assert(f.significand(m) == 0) by (nonlinear_arith)
            requires
                f.significand(m) * pow2(f.scale(m)) == 0,
                pow2(f.scale(m)) > 0,
        ;
        assert(m == 0);
    }
}

/// A natural number that fits is held exactly.
pub proof fn law_naturals_are_whole_doubles(n: nat)
    requires
        fits_double(n as int),
    ensures
        whole_double(Double::spec_from_natural(n), n as int),
{
    reveal(Double::spec_from_natural);
    lemma_rounded_wholly(n);
}

/// The opposite of a whole number.
pub proof fn law_whole_doubles_negate(a: Double, m: int)
    requires
        whole_double(a, m),
    ensures
        whole_double(a.spec_negated(), -m),
{
    let p = pow2(1074) as int;
    assert((-m) * p == -(m * p)) by (nonlinear_arith);
}

/// The sum of two whole numbers.
pub proof fn law_whole_doubles_add(a: Double, b: Double, m: int, n: int)
    requires
        whole_double(a, m),
        whole_double(b, n),
        fits_double(m + n),
    ensures
        whole_double(a.spec_plus(b), m + n),
{
    reveal(Double::spec_plus);
    let f = double_format();
    lemma_format_bounds(f);
    lemma_pow2_pos(1074);
    let p = pow2(1074) as int;
    let s = m + n;
    let exact = double_units(a) + double_units(b);
    assert(exact == s * p) by (nonlinear_arith)
        requires
            exact == m * p + n * p,
            s == m + n,
    ;
    assert(s > 0 ==> s * p > 0) by (nonlinear_arith)
        requires
            p > 0,
    ;
    assert(s < 0 ==> s * p < 0) by (nonlinear_arith)
        requires
            p > 0,
    ;
    assert((-s) * p == -(s * p)) by (nonlinear_arith);
    let size = if s < 0 {
        (-s) as nat
    } else {
        s as nat
    };
    lemma_rounded_wholly(size);
    lemma_rounded_wholly(0);
    assert(0 * pow2(1074) == 0);
    let r = a.spec_plus(b);
    if s == 0 {
        assert(magnitude(r.bits) == 0);
    }
}

/// The difference of two whole numbers.
pub proof fn law_whole_doubles_subtract(a: Double, b: Double, m: int, n: int)
    requires
        whole_double(a, m),
        whole_double(b, n),
        fits_double(m - n),
    ensures
        whole_double(a.spec_minus(b), m - n),
{
    law_whole_doubles_negate(b, n);
    law_whole_doubles_add(a, b.spec_negated(), m, -n);
}

spec fn size_of_int(n: int) -> nat {
    if n < 0 {
        (-n) as nat
    } else {
        n as nat
    }
}

proof fn lemma_signed_result(r: Double, s: int, negative: bool, size: nat)
    requires
        r == Double::of_signed(
            crate::ieee::Signed { negative, magnitude: double_format().rounded(size * pow2(1074), 1) as u64 },
        ),
        size == size_of_int(s),
        fits_double(s),
        s > 0 ==> !negative,
        s < 0 ==> negative,
    ensures
        whole_double(r, s),
{
    lemma_rounded_wholly(size);
    lemma_format_bounds(double_format());
    let p = pow2(1074) as int;
    assert((-s) * p == -(s * p)) by (nonlinear_arith);
    lemma_rounded_wholly(0);
    assert(0 * pow2(1074) == 0);
}

/// The product of two whole numbers.
pub proof fn law_whole_doubles_multiply(a: Double, b: Double, m: int, n: int)
    requires
        whole_double(a, m),
        whole_double(b, n),
        fits_double(m * n),
    ensures
        whole_double(a.spec_times(b), m * n),
{
    reveal(Double::spec_times);
    let f = double_format();
    lemma_format_bounds(f);
    lemma_pow2_pos(1074);
    lemma_signs(a, m);
    lemma_signs(b, n);
    let p = pow2(1074);
    let up = size_of_int(m);
    let down = size_of_int(n);
    let s = m * n;
    assert((up * p) * (down * p) == ((up * down) * p) * p) by (nonlinear_arith);
    lemma_rounded_scales(f, (up * down) * p, 1, p);
    assert(1 * p == p);
    assert(size_of_int(s) == up * down && (s > 0 ==> (m > 0) == (n > 0) && m != 0 && n != 0) && (s < 0 ==> (m > 0) != (n
        > 0) && m != 0 && n != 0)) by (nonlinear_arith)
        requires
            s == m * n,
            up == size_of_int(m),
            down == size_of_int(n),
    ;
    lemma_signed_result(a.spec_times(b), s, a.signed().negative != b.signed().negative, size_of_int(s));
}

/// The quotient of two whole numbers, where it is whole.
pub proof fn law_whole_doubles_divide(a: Double, b: Double, q: int, n: int)
    requires
        whole_double(a, q * n),
        whole_double(b, n),
        n != 0,
        fits_double(q),
    ensures
        whole_double(a.spec_over(b), q),
{
    reveal(Double::spec_over);
    let f = double_format();
    lemma_format_bounds(f);
    lemma_pow2_pos(1074);
    let m = q * n;
    lemma_signs(a, m);
    lemma_signs(b, n);
    let p = pow2(1074);
    let up = size_of_int(m);
    let down = size_of_int(n);
    let times = size_of_int(q);
    assert(up == times * down && (m > 0 ==> (q > 0) == (n > 0) && q != 0) && (m < 0 ==> (q > 0) != (n > 0) && q != 0) && (
    m == 0 ==> q == 0)) by (nonlinear_arith)
        requires
            m == q * n,
            n != 0,
            up == size_of_int(m),
            down == size_of_int(n),
            times == size_of_int(q),
    ;
    assert((up * p) * p == (times * p) * (down * p)) by (nonlinear_arith)
        requires
            up == times * down,
    ;
    assert(down * p > 0) by (nonlinear_arith)
        requires
            down > 0,
            p > 0,
    ;
    lemma_rounded_scales(f, times * p, 1, down * p);
    assert(1 * (down * p) == down * p);
    let negative = a.signed().negative != b.signed().negative;
    if m == 0 {
        lemma_rounded_wholly(0);
        assert(0 * pow2(1074) == 0);
    }
    lemma_signed_result(a.spec_over(b), q, negative, times);
}

} // verus!
