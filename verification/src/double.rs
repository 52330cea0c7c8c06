//! Double-precision numbers held by their IEEE-754 bit pattern.

use crate::ieee::{
    double_format, lemma_format_bounds, lemma_ratio_scales, lemma_rounded_scales, parts_of, power_of_two, product_of,
    quotient_of, round_exact, single_format, sum_of, Format, Signed,
};
use crate::single::{magnitude as single_magnitude, Single, INFINITY_BITS as SINGLE_INFINITY_BITS};
use crate::single::SIGN_BIT as SINGLE_SIGN_BIT;
use vstd::arithmetic::power2::{
    lemma2_to64, lemma2_to64_rest, lemma_pow2_adds, lemma_pow2_pos, lemma_pow2_strictly_increases, pow2,
};
use vstd::prelude::*;

verus! {

/// The sign bit of a double-precision pattern.
pub const SIGN_BIT: u64 = 0x8000_0000_0000_0000;

/// The pattern of positive infinity. Larger magnitudes are NaNs.
pub const INFINITY_BITS: u64 = 0x7ff0_0000_0000_0000;

/// The power of two that the number one is, in units of the least number.
pub const UNIT_EXPONENT: u32 = 1074;

/// The power of two between the units of the two precisions.
pub const PRECISION_GAP: u32 = 925;

/// A double-precision number, held by its bit pattern.
#[derive(Clone, Copy, Debug, PartialEq, Eq, Structural)]
pub struct Double {
    pub bits: u64,
}

/// The pattern without its sign bit.
pub open spec fn magnitude(bits: u64) -> int {
    if bits < SIGN_BIT {
        bits as int
    } else {
        bits - SIGN_BIT
    }
}

/// The position of a pattern in the numeric order. Both zeros are at 0.
pub open spec fn order_key(bits: u64) -> int {
    if bits < SIGN_BIT {
        bits as int
    } else {
        SIGN_BIT - bits
    }
}

fn format() -> (r: Format)
    ensures
        r == double_format(),
        r.valid(),
{
    Format { fraction: 52, exponent: 11 }
}

impl Double {
    pub open spec fn spec_nan(self) -> bool {
        magnitude(self.bits) > INFINITY_BITS
    }

    pub open spec fn spec_finite(self) -> bool {
        magnitude(self.bits) < INFINITY_BITS
    }

    pub open spec fn spec_zero(self) -> bool {
        magnitude(self.bits) == 0
    }

    /// Numeric `self < other`; false as soon as one side is NaN.
    pub open spec fn spec_less(self, other: Double) -> bool {
        !self.spec_nan() && !other.spec_nan() && order_key(self.bits) < order_key(other.bits)
    }

    /// Numeric `self <= other`; false as soon as one side is NaN.
    pub open spec fn spec_at_most(self, other: Double) -> bool {
        !self.spec_nan() && !other.spec_nan() && order_key(self.bits) <= order_key(other.bits)
    }

    pub open spec fn spec_negated(self) -> Double {
        if self.bits < SIGN_BIT {
            Double { bits: (self.bits + SIGN_BIT) as u64 }
        } else {
            Double { bits: (self.bits - SIGN_BIT) as u64 }
        }
    }

    /// Sign and magnitude.
    pub open spec fn signed(self) -> Signed {
        Signed { negative: self.bits >= SIGN_BIT, magnitude: magnitude(self.bits) as u64 }
    }

    /// The number with this sign and magnitude.
    pub open spec fn of_signed(s: Signed) -> Double {
        if s.negative {
            Double { bits: (s.magnitude + SIGN_BIT) as u64 }
        } else {
            Double { bits: s.magnitude }
        }
    }

    #[verifier::opaque]
    pub open spec fn spec_plus(self, other: Double) -> Double {
        Double::of_signed(double_format().sum(self.signed(), other.signed()))
    }

    pub open spec fn spec_minus(self, other: Double) -> Double {
        self.spec_plus(other.spec_negated())
    }

    #[verifier::opaque]
    pub open spec fn spec_times(self, other: Double) -> Double {
        Double::of_signed(double_format().product(self.signed(), other.signed()))
    }

    #[verifier::opaque]
    pub open spec fn spec_over(self, other: Double) -> Double {
        Double::of_signed(double_format().quotient(self.signed(), other.signed()))
    }

    /// The lesser of two numbers; the other one where one is NaN.
    pub open spec fn spec_min(self, other: Double) -> Double {
        if self.spec_nan() || other.spec_less(self) {
            other
        } else {
            self
        }
    }

    /// The greater of two numbers; the other one where one is NaN.
    pub open spec fn spec_max(self, other: Double) -> Double {
        if self.spec_nan() || self.spec_less(other) {
            other
        } else {
            self
        }
    }

    pub fn zero() -> (r: Double)
        ensures
            r.bits == 0,
    {
        Double { bits: 0 }
    }

    fn magnitude_bits(self) -> (r: u64)
        ensures
            r == magnitude(self.bits),
    {
        if self.bits < SIGN_BIT {
            self.bits
        } else {
            self.bits - SIGN_BIT
        }
    }

    fn to_signed(self) -> (r: Signed)
        ensures
            r == self.signed(),
            r.magnitude < SIGN_BIT,
    {
        Signed { negative: self.bits >= SIGN_BIT, magnitude: self.magnitude_bits() }
    }

    fn from_signed(s: Signed) -> (r: Double)
        requires
            s.magnitude < SIGN_BIT,
        ensures
            r == Double::of_signed(s),
    {
        if s.negative {
            Double { bits: s.magnitude + SIGN_BIT }
        } else {
            Double { bits: s.magnitude }
        }
    }

    pub fn is_nan(self) -> (r: bool)
        ensures
            r == self.spec_nan(),
    {
        self.magnitude_bits() > INFINITY_BITS
    }

    pub fn is_finite(self) -> (r: bool)
        ensures
            r == self.spec_finite(),
    {
        self.magnitude_bits() < INFINITY_BITS
    }

    pub fn is_zero(self) -> (r: bool)
        ensures
            r == self.spec_zero(),
    {
        self.magnitude_bits() == 0
    }

    fn precedes_or_equals(self, other: Double, equal: bool) -> (r: bool)
        ensures
            r == (order_key(self.bits) < order_key(other.bits) || (equal && order_key(self.bits) == order_key(
                other.bits,
            ))),
    {
        let a = self.magnitude_bits();
        let b = other.magnitude_bits();
        if self.bits < SIGN_BIT {
            if other.bits < SIGN_BIT {
                a < b || (equal && a == b)
            } else {
                equal && a == 0 && b == 0
            }
        } else if other.bits < SIGN_BIT {
            a > 0 || b > 0 || equal
        } else {
            a > b || (equal && a == b)
        }
    }

    pub fn less(self, other: Double) -> (r: bool)
        ensures
            r == self.spec_less(other),
    {
        !self.is_nan() && !other.is_nan() && self.precedes_or_equals(other, false)
    }

    pub fn at_most(self, other: Double) -> (r: bool)
        ensures
            r == self.spec_at_most(other),
    {
        !self.is_nan() && !other.is_nan() && self.precedes_or_equals(other, true)
    }

    pub fn negated(self) -> (r: Double)
        ensures
            r == self.spec_negated(),
    {
        if self.bits < SIGN_BIT {
            Double { bits: self.bits + SIGN_BIT }
        } else {
            Double { bits: self.bits - SIGN_BIT }
        }
    }

    pub fn min(self, other: Double) -> (r: Double)
        ensures
            r == self.spec_min(other),
    {
        if self.is_nan() || other.less(self) {
            other
        } else {
            self
        }
    }

    pub fn max(self, other: Double) -> (r: Double)
        ensures
            r == self.spec_max(other),
    {
        if self.is_nan() || self.less(other) {
            other
        } else {
            self
        }
    }

    pub fn plus(self, other: Double) -> (r: Double)
        ensures
            r == self.spec_plus(other),
    {
        proof {
            reveal(Double::spec_plus);
            lemma_results_fit();
        }
        Double::from_signed(sum_of(format(), self.to_signed(), other.to_signed()))
    }

    pub fn minus(self, other: Double) -> (r: Double)
        ensures
            r == self.spec_minus(other),
    {
        self.plus(other.negated())
    }

    pub fn times(self, other: Double) -> (r: Double)
        ensures
            r == self.spec_times(other),
    {
        proof {
            reveal(Double::spec_times);
            lemma_results_fit();
        }
        Double::from_signed(product_of(format(), self.to_signed(), other.to_signed()))
    }

    pub fn over(self, other: Double) -> (r: Double)
        ensures
            r == self.spec_over(other),
    {
        proof {
            reveal(Double::spec_over);
            lemma_results_fit();
        }
        Double::from_signed(quotient_of(format(), self.to_signed(), other.to_signed()))
    }

    /// The number nearest to a natural number, a tie to the even neighbour.
    #[verifier::opaque]
    pub open spec fn spec_from_natural(n: nat) -> Double {
        Double { bits: double_format().rounded(n * pow2(UNIT_EXPONENT as nat), 1) as u64 }
    }

    pub fn from_natural(n: u64) -> (r: Double)
        ensures
            r == Double::spec_from_natural(n as nat),
    {
        proof {
            reveal(Double::spec_from_natural);
            lemma2_to64();
            lemma2_to64_rest();
            lemma_pow2_adds(60, 60);
        }
        Double { bits: round_exact(format(), n as u128, UNIT_EXPONENT as i32) }
    }

    /// A single-precision number in double precision.
    #[verifier::opaque]
    pub open spec fn spec_widened(x: Single) -> Double {
        if x.spec_nan() {
            Double::of_signed(double_format().undefined())
        } else if !x.spec_finite() {
            Double::of_signed(Signed { negative: x.bits >= SINGLE_SIGN_BIT, magnitude: INFINITY_BITS })
        } else {
            Double::of_signed(
                Signed {
                    negative: x.bits >= SINGLE_SIGN_BIT,
                    magnitude: double_format().rounded(
                        single_format().units(single_magnitude(x.bits) as nat) * pow2(PRECISION_GAP as nat),
                        1,
                    ) as u64,
                },
            )
        }
    }

    pub fn widened(x: Single) -> (r: Double)
        ensures
            r == Double::spec_widened(x),
    {
        proof {
            reveal(Double::spec_widened);
            lemma_results_fit();
            lemma_format_bounds(double_format());
            lemma_format_bounds(single_format());
            lemma2_to64();
            lemma2_to64_rest();
            lemma_pow2_adds(60, 60);
        }
        let negative = x.bits >= SINGLE_SIGN_BIT;
        if x.is_nan() {
            return Double { bits: 0x7ff8_0000_0000_0000 };
        }
        let bits: u64 = if negative {
            (x.bits - SINGLE_SIGN_BIT) as u64
        } else {
            x.bits as u64
        };
        if !x.is_finite() {
            return Double::from_signed(Signed { negative, magnitude: INFINITY_BITS });
        }
        let parts = parts_of(Format { fraction: 23, exponent: 8 }, bits);
        proof {
            let m = parts.significand as nat;
            lemma_pow2_adds(parts.scale as nat, PRECISION_GAP as nat);
            assert(m * pow2((parts.scale + PRECISION_GAP) as nat) == (m * pow2(parts.scale as nat)) * pow2(
                PRECISION_GAP as nat,
            )) by (nonlinear_arith)
                requires
                    pow2((parts.scale + PRECISION_GAP) as nat) == pow2(parts.scale as nat) * pow2(
                        PRECISION_GAP as nat,
                    ),
            ;
        }
        let magnitude = round_exact(
            format(),
            parts.significand as u128,
            parts.scale as i32 + PRECISION_GAP as i32,
        );
        Double::from_signed(Signed { negative, magnitude })
    }

    /// The single-precision number nearest to this one, a tie to the even
    /// neighbour.
    #[verifier::opaque]
    pub open spec fn spec_narrowed(self) -> Single {
        if self.spec_nan() {
            Single::of_signed(single_format().undefined())
        } else if !self.spec_finite() {
            Single::of_signed(
                Signed { negative: self.bits >= SIGN_BIT, magnitude: SINGLE_INFINITY_BITS as u64 },
            )
        } else {
            Single::of_signed(
                Signed {
                    negative: self.bits >= SIGN_BIT,
                    magnitude: single_format().rounded(
                        double_format().units(magnitude(self.bits) as nat),
                        pow2(PRECISION_GAP as nat),
                    ) as u64,
                },
            )
        }
    }

    pub fn narrowed(self) -> (r: Single)
        ensures
            r == self.spec_narrowed(),
    {
        proof {
            reveal(Double::spec_narrowed);
            lemma_format_bounds(double_format());
            lemma_format_bounds(single_format());
            lemma2_to64();
            lemma2_to64_rest();
            lemma_pow2_adds(60, 60);
        }
        let negative = self.bits >= SIGN_BIT;
        if self.is_nan() {
            return Single { bits: 0x7fc0_0000 };
        }
        let bits: u32 = if !self.is_finite() {
            SINGLE_INFINITY_BITS
        } else {
            let parts = parts_of(format(), self.magnitude_bits());
            let e: i32 = parts.scale as i32 - PRECISION_GAP as i32;
            proof {
                let m = parts.significand as nat;
                let gap = pow2(PRECISION_GAP as nat);
                let scale = pow2(parts.scale as nat);
                lemma_pow2_pos(PRECISION_GAP as nat);
                lemma_pow2_pos(parts.scale as nat);
                if e >= 0 {
                    lemma_pow2_adds(e as nat, PRECISION_GAP as nat);
                    lemma_rounded_scales(single_format(), m * pow2(e as nat), 1, gap);
                    assert((m * pow2(e as nat)) * gap == m * scale) by (nonlinear_arith)
                        requires
                            scale == pow2(e as nat) * gap,
                    ;
                    assert(1 * gap == gap);
                } else {
                    lemma_pow2_adds((-e) as nat, parts.scale as nat);
                    lemma_pow2_pos((-e) as nat);
                    lemma_rounded_scales(single_format(), m, pow2((-e) as nat), scale);
                }
            }
            round_exact(Format { fraction: 23, exponent: 8 }, parts.significand as u128, e) as u32
        };
        if negative {
            Single { bits: bits + SINGLE_SIGN_BIT }
        } else {
            Single { bits }
        }
    }

    /// The integer part of a number that is not negative, at most the limit.
    /// A negative number and NaN give 0.
    #[verifier::opaque]
    pub open spec fn spec_floor_within(self, limit: nat) -> nat {
        if self.spec_nan() || self.bits >= SIGN_BIT {
            0
        } else if !self.spec_finite() {
            limit
        } else {
            let whole = double_format().units(self.bits as nat) / pow2(UNIT_EXPONENT as nat);
            if whole < limit {
                whole
            } else {
                limit
            }
        }
    }

    /// The least integer that is not below a number that is not negative, at
    /// most the limit. A negative number and NaN give 0.
    #[verifier::opaque]
    pub open spec fn spec_ceiling_within(self, limit: nat) -> nat {
        if self.spec_nan() || self.bits >= SIGN_BIT {
            0
        } else if !self.spec_finite() {
            limit
        } else {
            let one = pow2(UNIT_EXPONENT as nat);
            let units = double_format().units(self.bits as nat);
            let whole = units / one + if units % one == 0 {
                0nat
            } else {
                1nat
            };
            if whole < limit {
                whole
            } else {
                limit
            }
        }
    }

    /// The integer part of a finite number that is not negative, and whether
    /// something is left; `None` for numbers from `2^52` on.
    fn whole_part(self) -> (r: Option<(u64, bool)>)
        requires
            self.bits < INFINITY_BITS,
        ensures
            ({
                let one = pow2(UNIT_EXPONENT as nat);
                let units = double_format().units(self.bits as nat);
                match r {
                    Some((whole, rest)) => whole == units / one && rest == (units % one != 0) && whole
                        < 0x40_0000_0000_0000,
                    None => units / one >= 0x10_0000_0000_0000,
                }
            }),
    {
        let ghost one = pow2(UNIT_EXPONENT as nat);
        let ghost units = double_format().units(self.bits as nat);
        proof {
            lemma_results_fit();
            lemma_format_bounds(double_format());
            lemma_pow2_pos(UNIT_EXPONENT as nat);
            lemma2_to64();
            lemma2_to64_rest();
        }
        let parts = parts_of(format(), self.bits);
        proof {
            lemma_pow2_pos(parts.scale as nat);
        }
        if parts.scale >= UNIT_EXPONENT {
            proof {
                let k = (parts.scale - UNIT_EXPONENT) as nat;
                lemma_pow2_adds(k, UNIT_EXPONENT as nat);
                lemma_pow2_pos(k);
                let m = parts.significand as nat;
                crate::ieee::lemma_normal_significand(double_format(), self.bits as nat);
                assert(units == (m * pow2(k)) * one) by (nonlinear_arith)
                    requires
                        units == m * pow2(parts.scale as nat),
                        pow2(parts.scale as nat) == pow2(k) * one,
                ;
                vstd::arithmetic::div_mod::lemma_div_multiples_vanish((m * pow2(k)) as int, one as int);
                assert(one * (m * pow2(k)) == (m * pow2(k)) * one) by (nonlinear_arith);
                assert(m * pow2(k) >= m) by (nonlinear_arith)
                    requires
                        pow2(k) >= 1,
                ;
            }
            return None;
        }
        let k: u32 = UNIT_EXPONENT - parts.scale;
        proof {
            let m = parts.significand as nat;
            let scale = pow2(parts.scale as nat);
            lemma_pow2_adds(k as nat, parts.scale as nat);
            lemma_pow2_pos(k as nat);
            lemma_ratio_scales(m, pow2(k as nat), scale);
            crate::ieee::lemma_remainder_scales(m, pow2(k as nat), scale);
            assert(units == m * scale);
            assert(one == pow2(k as nat) * scale);
            let left = m % pow2(k as nat);
            assert((left * scale != 0) == (left != 0)) by (nonlinear_arith)
                requires
                    scale > 0,
                    left >= 0,
            ;
        }
        if k > 60 {
            proof {
                let m = parts.significand as nat;
                lemma_pow2_strictly_increases(60, k as nat);
                vstd::arithmetic::div_mod::lemma_basic_div(m as int, pow2(k as nat) as int);
                vstd::arithmetic::div_mod::lemma_small_mod(m, pow2(k as nat));
            }
            Some((0, parts.significand > 0))
        } else {
            let step = power_of_two(k);
            let whole: u128 = parts.significand as u128 / step;
            proof {
                assert(whole <= parts.significand) by (nonlinear_arith)
                    requires
                        whole == parts.significand as u128 / step,
                        step >= 1,
                ;
            }
            Some((whole as u64, parts.significand as u128 % step != 0))
        }
    }

    pub fn floor_within(self, limit: u32) -> (r: u32)
        ensures
            r == self.spec_floor_within(limit as nat),
            r <= limit,
    {
        proof {
            reveal(Double::spec_floor_within);
        }
        if self.is_nan() || self.bits >= SIGN_BIT {
            return 0;
        }
        if !self.is_finite() {
            return limit;
        }
        match self.whole_part() {
            Some((whole, _)) => if whole < limit as u64 {
                whole as u32
            } else {
                limit
            },
            None => limit,
        }
    }

    pub fn ceiling_within(self, limit: u32) -> (r: u32)
        ensures
            r == self.spec_ceiling_within(limit as nat),
            r <= limit,
    {
        proof {
            reveal(Double::spec_ceiling_within);
        }
        if self.is_nan() || self.bits >= SIGN_BIT {
            return 0;
        }
        if !self.is_finite() {
            return limit;
        }
        match self.whole_part() {
            Some((whole, rest)) => {
                let up: u64 = if rest {
                    whole + 1
                } else {
                    whole
                };
                if up < limit as u64 {
                    up as u32
                } else {
                    limit
                }
            },
            None => limit,
        }
    }
}

proof fn lemma_results_fit()
    ensures
        double_format().infinity() == INFINITY_BITS,
        forall|n: nat, d: nat| #[trigger] double_format().rounded(n, d) <= INFINITY_BITS,
        double_format().undefined() == (Signed { negative: false, magnitude: 0x7ff8_0000_0000_0000 }),
{
    lemma_format_bounds(double_format());
    lemma2_to64();
    lemma2_to64_rest();
}

} // verus!
