//! Single-precision numbers held by their IEEE-754 bit pattern.
//!
//! Order, sign and finiteness of such a number are integer facts about its
//! bits: below the infinities the numeric order of the positive numbers is the
//! order of their patterns, and a set sign bit mirrors it. Sums, products and
//! quotients are the exact results rounded to nearest, ties to even.

use crate::ieee::{
    lemma_format_bounds, lemma_rounded_bound, lemma_top_bit_bounds, power_of_two, product_of, quotient_of,
    remainder_of, round_exact, single_format, single_root, sum_of, top_bit, Format, Signed,
};
use vstd::arithmetic::power2::{
    lemma2_to64, lemma2_to64_rest, lemma_pow2_adds, lemma_pow2_pos, lemma_pow2_strictly_increases,
    lemma_pow2_unfold, pow2,
};
use vstd::prelude::*;

verus! {

/// The sign bit of a single-precision pattern.
pub const SIGN_BIT: u32 = 0x8000_0000;

/// The pattern of positive infinity. Larger magnitudes are NaNs.
pub const INFINITY_BITS: u32 = 0x7f80_0000;

/// The pattern of `1.0`.
pub const ONE_BITS: u32 = 0x3f80_0000;

/// One unit of the exponent field of a single-precision pattern.
pub const EXPONENT_UNIT: u32 = 0x0080_0000;

/// The power of two that the number one is, in units of the least number.
pub const UNIT_EXPONENT: u32 = 149;

/// A single-precision number, held by its bit pattern.
#[derive(Clone, Copy, Debug, PartialEq, Eq, Structural)]
pub struct Single {
    pub bits: u32,
}

/// The pattern without its sign bit.
pub open spec fn magnitude(bits: u32) -> int {
    if bits < SIGN_BIT {
        bits as int
    } else {
        bits - SIGN_BIT
    }
}

/// The position of a pattern in the numeric order. Both zeros are at 0.
pub open spec fn order_key(bits: u32) -> int {
    if bits < SIGN_BIT {
        bits as int
    } else {
        SIGN_BIT - bits
    }
}

/// The position of a pattern in the total order: the negative zero comes
/// before the positive one, and NaNs are at the two ends.
pub open spec fn total_key(bits: u32) -> int {
    if bits < SIGN_BIT {
        bits as int
    } else {
        SIGN_BIT - bits - 1
    }
}

/// The natural number as a single-precision magnitude, rounded.
pub open spec fn natural_magnitude(n: nat) -> nat {
    single_format().rounded(n * pow2(UNIT_EXPONENT as nat), 1)
}

fn format() -> (r: Format)
    ensures
        r == single_format(),
        r.valid(),
{
    Format { fraction: 23, exponent: 8 }
}

impl Single {
    pub open spec fn spec_nan(self) -> bool {
        magnitude(self.bits) > INFINITY_BITS
    }

    pub open spec fn spec_finite(self) -> bool {
        magnitude(self.bits) < INFINITY_BITS
    }

    /// Numeric `self < other`; false as soon as one side is NaN.
    pub open spec fn spec_less(self, other: Single) -> bool {
        !self.spec_nan() && !other.spec_nan() && order_key(self.bits) < order_key(other.bits)
    }

    /// Numeric `self <= other`; false as soon as one side is NaN.
    pub open spec fn spec_at_most(self, other: Single) -> bool {
        !self.spec_nan() && !other.spec_nan() && order_key(self.bits) <= order_key(other.bits)
    }

    /// Numeric `self == other`: both zeros are equal, NaN equals nothing.
    pub open spec fn spec_same(self, other: Single) -> bool {
        !self.spec_nan() && !other.spec_nan() && order_key(self.bits) == order_key(other.bits)
    }

    pub open spec fn spec_zero(self) -> bool {
        magnitude(self.bits) == 0
    }

    pub open spec fn spec_negated(self) -> Single {
        if self.bits < SIGN_BIT {
            Single { bits: (self.bits + SIGN_BIT) as u32 }
        } else {
            Single { bits: (self.bits - SIGN_BIT) as u32 }
        }
    }

    pub open spec fn spec_absolute(self) -> Single {
        Single { bits: magnitude(self.bits) as u32 }
    }

    /// Sign and magnitude.
    pub open spec fn signed(self) -> Signed {
        Signed { negative: self.bits >= SIGN_BIT, magnitude: magnitude(self.bits) as u64 }
    }

    /// The number with this sign and magnitude.
    pub open spec fn of_signed(s: Signed) -> Single {
        if s.negative {
            Single { bits: (s.magnitude + SIGN_BIT) as u32 }
        } else {
            Single { bits: s.magnitude as u32 }
        }
    }

    #[verifier::opaque]
    pub open spec fn spec_plus(self, other: Single) -> Single {
        Single::of_signed(single_format().sum(self.signed(), other.signed()))
    }

    pub open spec fn spec_minus(self, other: Single) -> Single {
        self.spec_plus(other.spec_negated())
    }

    #[verifier::opaque]
    pub open spec fn spec_times(self, other: Single) -> Single {
        Single::of_signed(single_format().product(self.signed(), other.signed()))
    }

    #[verifier::opaque]
    pub open spec fn spec_over(self, other: Single) -> Single {
        Single::of_signed(single_format().quotient(self.signed(), other.signed()))
    }

    /// The lesser of two numbers; the other one where one is NaN.
    pub open spec fn spec_min(self, other: Single) -> Single {
        if self.spec_nan() || other.spec_less(self) {
            other
        } else {
            self
        }
    }

    /// The greater of two numbers; the other one where one is NaN.
    pub open spec fn spec_max(self, other: Single) -> Single {
        if self.spec_nan() || self.spec_less(other) {
            other
        } else {
            self
        }
    }

    pub fn zero() -> (r: Single)
        ensures
            r.bits == 0,
            r.spec_zero(),
    {
        Single { bits: 0 }
    }

    pub fn one() -> (r: Single)
        ensures
            r.bits == ONE_BITS,
    {
        Single { bits: ONE_BITS }
    }

    fn magnitude_bits(self) -> (r: u32)
        ensures
            r == magnitude(self.bits),
    {
        if self.bits < SIGN_BIT {
            self.bits
        } else {
            self.bits - SIGN_BIT
        }
    }

    fn key(self) -> (r: i64)
        ensures
            r == order_key(self.bits),
    {
        if self.bits < SIGN_BIT {
            self.bits as i64
        } else {
            SIGN_BIT as i64 - self.bits as i64
        }
    }

    fn to_signed(self) -> (r: Signed)
        ensures
            r == self.signed(),
    {
        Signed { negative: self.bits >= SIGN_BIT, magnitude: self.magnitude_bits() as u64 }
    }

    fn from_signed(s: Signed) -> (r: Single)
        requires
            s.magnitude < SIGN_BIT,
        ensures
            r == Single::of_signed(s),
    {
        if s.negative {
            Single { bits: s.magnitude as u32 + SIGN_BIT }
        } else {
            Single { bits: s.magnitude as u32 }
        }
    }

    pub fn is_nan(self) -> (r: bool)
        ensures
            r == self.spec_nan(),
    {
        self.magnitude_bits() > INFINITY_BITS
    }

    pub fn is_finite(self) -> (r: bool)
        ensures
            r == self.spec_finite(),
    {
        self.magnitude_bits() < INFINITY_BITS
    }

    pub fn is_zero(self) -> (r: bool)
        ensures
            r == self.spec_zero(),
    {
        self.magnitude_bits() == 0
    }

    pub fn less(self, other: Single) -> (r: bool)
        ensures
            r == self.spec_less(other),
    {
        !self.is_nan() && !other.is_nan() && self.key() < other.key()
    }

    pub fn at_most(self, other: Single) -> (r: bool)
        ensures
            r == self.spec_at_most(other),
    {
        !self.is_nan() && !other.is_nan() && self.key() <= other.key()
    }

    pub fn same(self, other: Single) -> (r: bool)
        ensures
            r == self.spec_same(other),
    {
        !self.is_nan() && !other.is_nan() && self.key() == other.key()
    }

    pub fn negated(self) -> (r: Single)
        ensures
            r == self.spec_negated(),
    {
        if self.bits < SIGN_BIT {
            Single { bits: self.bits + SIGN_BIT }
        } else {
            Single { bits: self.bits - SIGN_BIT }
        }
    }

    pub fn absolute(self) -> (r: Single)
        ensures
            r == self.spec_absolute(),
    {
        Single { bits: self.magnitude_bits() }
    }

    pub fn min(self, other: Single) -> (r: Single)
        ensures
            r == self.spec_min(other),
    {
        if self.is_nan() || other.less(self) {
            other
        } else {
            self
        }
    }

    pub fn max(self, other: Single) -> (r: Single)
        ensures
            r == self.spec_max(other),
    {
        if self.is_nan() || self.less(other) {
            other
        } else {
            self
        }
    }

    pub fn plus(self, other: Single) -> (r: Single)
        ensures
            r == self.spec_plus(other),
    {
        proof {
            reveal(Single::spec_plus);
        }
        let s = sum_of(format(), self.to_signed(), other.to_signed());
        proof {
            lemma_sum_fits(self.signed(), other.signed());
        }
        Single::from_signed(s)
    }

    pub fn minus(self, other: Single) -> (r: Single)
        ensures
            r == self.spec_minus(other),
    {
        self.plus(other.negated())
    }

    pub fn times(self, other: Single) -> (r: Single)
        ensures
            r == self.spec_times(other),
    {
        proof {
            reveal(Single::spec_times);
        }
        let s = product_of(format(), self.to_signed(), other.to_signed());
        proof {
            lemma_rounded_fits();
            lemma_undefined_fits();
        }
        Single::from_signed(s)
    }

    pub fn over(self, other: Single) -> (r: Single)
        ensures
            r == self.spec_over(other),
    {
        proof {
            reveal(Single::spec_over);
        }
        let s = quotient_of(format(), self.to_signed(), other.to_signed());
        proof {
            lemma_rounded_fits();
            lemma_undefined_fits();
        }
        Single::from_signed(s)
    }

    /// The square root, rounded.
    #[verifier::opaque]
    pub open spec fn spec_root(self) -> Single {
        Single::of_signed(single_format().root(self.signed()))
    }

    pub fn root(self) -> (r: Single)
        ensures
            r == self.spec_root(),
    {
        proof {
            reveal(Single::spec_root);
            lemma_rounded_fits();
            lemma_undefined_fits();
        }
        let s = single_root(format(), self.to_signed());
        Single::from_signed(s)
    }

    /// The remainder of a division with a positive divisor, brought to the
    /// range from 0 up to the divisor.
    #[verifier::opaque]
    pub open spec fn spec_rem_euclid(self, other: Single) -> Single {
        let rest = Single::of_signed(single_format().remainder(self.signed(), other.signed()));
        if rest.spec_less(Single { bits: 0 }) {
            rest.spec_plus(other.spec_absolute())
        } else {
            rest
        }
    }

    pub fn rem_euclid(self, other: Single) -> (r: Single)
        ensures
            r == self.spec_rem_euclid(other),
    {
        proof {
            reveal(Single::spec_rem_euclid);
        }
        let s = remainder_of(format(), self.to_signed(), other.to_signed());
        proof {
            lemma_rounded_fits();
            lemma_undefined_fits();
        }
        let rest = Single::from_signed(s);
        if rest.less(Single::zero()) {
            rest.plus(other.absolute())
        } else {
            rest
        }
    }

    /// The number nearest to a natural number, a tie to the even neighbour.
    #[verifier::opaque]
    pub open spec fn spec_from_natural(n: nat) -> Single {
        Single { bits: natural_magnitude(n) as u32 }
    }

    pub fn from_natural(n: u64) -> (r: Single)
        ensures
            r == Single::spec_from_natural(n as nat),
            r.spec_finite(),
            r.bits < SIGN_BIT,
            n > 0 ==> r.bits > 0,
    {
        proof {
            reveal(Single::spec_from_natural);
        }
        proof {
            lemma2_to64();
            lemma2_to64_rest();
            lemma_pow2_adds(60, 60);
            lemma_natural_magnitude(n as nat);
        }
        let bits = round_exact(format(), n as u128, UNIT_EXPONENT as i32);
        Single { bits: bits as u32 }
    }

    /// The number nearest to an integer, a tie to the even neighbour.
    pub open spec fn spec_from_integer(n: i64) -> Single {
        if n >= 0 {
            Single::spec_from_natural(n as nat)
        } else {
            Single::spec_from_natural((-n) as nat).spec_negated()
        }
    }

    pub fn from_integer(n: i64) -> (r: Single)
        ensures
            r == Single::spec_from_integer(n),
            r.spec_finite(),
            n > 0 ==> 0 < r.bits < SIGN_BIT,
    {
        if n >= 0 {
            Single::from_natural(n as u64)
        } else if n == i64::MIN {
            Single::from_natural(0x8000_0000_0000_0000u64).negated()
        } else {
            Single::from_natural((-n) as u64).negated()
        }
    }

    /// The integer part, towards zero; NaN gives 0, and a number outside the
    /// range gives the nearer end of it.
    #[verifier::opaque]
    pub open spec fn spec_truncated(self) -> int {
        let exponent = magnitude(self.bits) / (EXPONENT_UNIT as int);
        let full = magnitude(self.bits) % (EXPONENT_UNIT as int) + EXPONENT_UNIT;
        let negative = self.bits >= SIGN_BIT;
        if self.spec_nan() || exponent < 127 {
            0
        } else if exponent >= 158 {
            if negative {
                i32::MIN as int
            } else {
                i32::MAX as int
            }
        } else {
            let part = if exponent >= 150 {
                full * pow2((exponent - 150) as nat)
            } else {
                full / (pow2((150 - exponent) as nat) as int)
            };
            if negative {
                -part
            } else {
                part
            }
        }
    }

    pub fn truncated(self) -> (r: i32)
        ensures
            r == self.spec_truncated(),
    {
        proof {
            reveal(Single::spec_truncated);
        }
        let m = self.magnitude_bits();
        let exponent: u32 = m / EXPONENT_UNIT;
        let full: u32 = m % EXPONENT_UNIT + EXPONENT_UNIT;
        let negative = self.bits >= SIGN_BIT;
        if self.is_nan() || exponent < 127 {
            0
        } else if exponent >= 158 {
            if negative {
                i32::MIN
            } else {
                i32::MAX
            }
        } else {
            let part: u128 = if exponent >= 150 {
                let scale = power_of_two(exponent - 150);
                proof {
                    lemma2_to64();
                    if exponent < 157 {
                        lemma_pow2_strictly_increases((exponent - 150) as nat, 7);
                    }
                    assert(full * scale <= 0xff_ffff * 128) by (nonlinear_arith)
                        requires
                            full <= 0xff_ffff,
                            scale <= 128,
                    ;
                }
                full as u128 * scale
            } else {
                let scale = power_of_two(150 - exponent);
                proof {
                    lemma_pow2_pos((150 - exponent) as nat);
                    vstd::arithmetic::div_mod::lemma_div_is_ordered_by_denominator(full as int, 1, scale as int);
                }
                full as u128 / scale
            };
            if negative {
                -(part as i32)
            } else {
                part as i32
            }
        }
    }

    /// The nearest integer, a half away from zero; NaN gives 0, and a number
    /// outside the range gives the nearer end of it.
    #[verifier::opaque]
    pub open spec fn spec_rounded(self) -> int {
        let exponent = magnitude(self.bits) / (EXPONENT_UNIT as int);
        let full = magnitude(self.bits) % (EXPONENT_UNIT as int) + EXPONENT_UNIT;
        let negative = self.bits >= SIGN_BIT;
        if self.spec_nan() || exponent < 126 {
            0
        } else if exponent >= 158 {
            if negative {
                i32::MIN as int
            } else {
                i32::MAX as int
            }
        } else {
            let part = if exponent >= 150 {
                full * pow2((exponent - 150) as nat)
            } else {
                (full + pow2((149 - exponent) as nat)) / (pow2((150 - exponent) as nat) as int)
            };
            if negative {
                -part
            } else {
                part
            }
        }
    }

    pub fn rounded(self) -> (r: i32)
        ensures
            r == self.spec_rounded(),
    {
        proof {
            reveal(Single::spec_rounded);
        }
        let m = self.magnitude_bits();
        let exponent: u32 = m / EXPONENT_UNIT;
        let full: u32 = m % EXPONENT_UNIT + EXPONENT_UNIT;
        let negative = self.bits >= SIGN_BIT;
        if self.is_nan() || exponent < 126 {
            0
        } else if exponent >= 158 {
            if negative {
                i32::MIN
            } else {
                i32::MAX
            }
        } else {
            let part: u128 = if exponent >= 150 {
                let scale = power_of_two(exponent - 150);
                proof {
                    lemma2_to64();
                    if exponent < 157 {
                        lemma_pow2_strictly_increases((exponent - 150) as nat, 7);
                    }
                    assert(full * scale <= 0xff_ffff * 128) by (nonlinear_arith)
                        requires
                            full <= 0xff_ffff,
                            scale <= 128,
                    ;
                }
                full as u128 * scale
            } else {
                let scale = power_of_two(150 - exponent);
                let half = power_of_two(149 - exponent);
                proof {
                    lemma2_to64();
                    lemma_pow2_pos((150 - exponent) as nat);
                    if exponent > 126 {
                        lemma_pow2_strictly_increases((149 - exponent) as nat, 23);
                    }
                    vstd::arithmetic::div_mod::lemma_div_is_ordered_by_denominator(
                        (full + half) as int,
                        1,
                        scale as int,
                    );
                }
                (full as u128 + half) / scale
            };
            if negative {
                -(part as i32)
            } else {
                part as i32
            }
        }
    }
}

proof fn lemma_rounded_fits()
    ensures
        single_format().infinity() == INFINITY_BITS,
        forall|n: nat, d: nat| #[trigger] single_format().rounded(n, d) <= INFINITY_BITS,
{
    lemma_format_bounds(single_format());
}

proof fn lemma_undefined_fits()
    ensures
        single_format().undefined() == (Signed { negative: false, magnitude: 0x7fc0_0000 }),
{
    lemma_format_bounds(single_format());
    lemma2_to64();
}

proof fn lemma_sum_fits(a: Signed, b: Signed)
    requires
        a.magnitude < SIGN_BIT,
        b.magnitude < SIGN_BIT,
    ensures
        single_format().sum(a, b).magnitude < SIGN_BIT,
{
    lemma_rounded_fits();
    lemma_undefined_fits();
}

/// A natural number has a finite magnitude, and only 0 has the magnitude 0.
pub proof fn lemma_natural_magnitude(n: nat)
    requires
        n <= u64::MAX,
    ensures
        natural_magnitude(n) < INFINITY_BITS,
        n > 0 ==> natural_magnitude(n) > 0,
        Single::spec_from_natural(n).bits == natural_magnitude(n),
{
    reveal(Single::spec_from_natural);
    let f = single_format();
    let p = pow2(UNIT_EXPONENT as nat);
    let scaled = n * p;
    lemma_format_bounds(f);
    lemma2_to64();
    lemma2_to64_rest();
    lemma_pow2_pos(UNIT_EXPONENT as nat);
    vstd::arithmetic::div_mod::lemma_div_basics(scaled as int);
    if n > 0 {
        lemma_top_bit_bounds(n);
        lemma_pow2_adds(64, UNIT_EXPONENT as nat);
        assert(0 < scaled < pow2(64) * p) by (nonlinear_arith)
            requires
                0 < n < pow2(64),
                scaled == n * p,
                p > 0,
        ;
        lemma_top_bit_bounds(scaled);
        if top_bit(scaled) > 212 {
            if top_bit(scaled) > 213 {
                lemma_pow2_strictly_increases(213, top_bit(scaled));
            }
            assert(false);
        }
    }
    lemma_rounded_bound(f, scaled, 1, 212);
}

/// The distance between two numbers of different size is a number.
pub proof fn lemma_distance_is_a_number(low: Single, high: Single)
    requires
        low.spec_less(high),
    ensures
        !high.spec_minus(low).spec_nan(),
{
    reveal(Single::spec_plus);
    lemma_format_bounds(single_format());
    lemma2_to64();
    lemma2_to64_rest();
}

pub proof fn lemma_sum_is_a_number(a: Single, b: Single)
    requires
        a.spec_finite(),
        b.spec_finite(),
    ensures
        !a.spec_plus(b).spec_nan(),
{
    reveal(Single::spec_plus);
    lemma_rounded_fits();
    lemma_format_bounds(single_format());
    lemma2_to64();
    lemma2_to64_rest();
    lemma_sum_fits(a.signed(), b.signed());
}

/// Negating twice gives the number back, and negation mirrors the order.
pub proof fn law_negation_mirrors_order(a: Single, b: Single)
    ensures
        a.spec_negated().spec_negated() == a,
        a.spec_less(b) == b.spec_negated().spec_less(a.spec_negated()),
{
}

/// Among numbers that are not NaN exactly one of less, same, greater holds.
pub proof fn law_order_is_total(a: Single, b: Single)
    requires
        !a.spec_nan(),
        !b.spec_nan(),
    ensures
        a.spec_less(b) || a.spec_same(b) || b.spec_less(a),
        !(a.spec_less(b) && b.spec_less(a)),
        a.spec_same(b) ==> !a.spec_less(b) && !b.spec_less(a),
{
}

/// Sums and products do not depend on the order of their operands.
pub proof fn law_sum_and_product_commute(a: Single, b: Single)
    ensures
        a.spec_plus(b) == b.spec_plus(a),
        a.spec_times(b) == b.spec_times(a),
{
    reveal(Single::spec_plus);
    reveal(Single::spec_times);
    let x = single_format().units(a.signed().magnitude as nat);
    let y = single_format().units(b.signed().magnitude as nat);
    assert(x * y == y * x) by (nonlinear_arith);
}

/// The sum of the opposites of finite numbers is the opposite of their sum.
pub proof fn law_opposites_add_up(a: Single, b: Single)
    requires
        a.spec_finite(),
        b.spec_finite(),
    ensures
        a.spec_negated().spec_plus(b.spec_negated()).spec_same(a.spec_plus(b).spec_negated()),
{
    reveal(Single::spec_plus);
    let format = single_format();
    let exact = format.value(a.signed()) + format.value(b.signed());
    lemma_rounded_fits();
    lemma_format_bounds(format);
    lemma2_to64();
    lemma2_to64_rest();
    assert(format.value(a.spec_negated().signed()) == -format.value(a.signed()));
    assert(format.value(b.spec_negated().signed()) == -format.value(b.signed()));
    lemma_sum_fits(a.signed(), b.signed());
    lemma_sum_fits(a.spec_negated().signed(), b.spec_negated().signed());
}

} // verus!
