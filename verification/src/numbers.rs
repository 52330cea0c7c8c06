//! Numbers as decimal text, and back.

use crate::ieee::{lemma_exact_ratio, lemma_format_bounds, lemma_ratio_scales, nearest_even, parts_of, power_of_two, single_format, Format};
use crate::single::{magnitude, Single, SIGN_BIT, UNIT_EXPONENT};
use crate::text::push_text;
use crate::text_utils::all_digits;
use vstd::arithmetic::div_mod::{lemma_div_multiples_vanish, lemma_basic_div, lemma_small_mod};
use vstd::arithmetic::power2::{lemma2_to64, lemma2_to64_rest, lemma_pow2_adds, lemma_pow2_pos, lemma_pow2_strictly_increases, pow2};
use vstd::prelude::*;

verus! {

/// The character of a decimal digit.
pub open spec fn digit(d: nat) -> char {
    ((48 + d) as u8) as char
}

fn digit_char(d: u8) -> (r: char)
    requires
        d < 10,
    ensures
        r == digit(d as nat),
{
    (48 + d) as char
}

/// A natural number in decimal, without leading zeros.
pub open spec fn decimal(n: nat) -> Seq<char>
    decreases n,
{
    if n < 10 {
        seq![digit(n)]
    } else {
        decimal(n / 10).push(digit(n % 10))
    }
}

/// Appends a natural number in decimal.
pub fn push_decimal(out: &mut Vec<char>, n: u128)
    ensures
        final(out)@ == old(out)@ + decimal(n as nat),
    decreases n,
{
    if n >= 10 {
        push_decimal(out, n / 10);
    }
    out.push(digit_char((n % 10) as u8));
    assert(out@ =~= old(out)@ + decimal(n as nat));
}

/// Ten to a power.
pub open spec fn ten_to(n: nat) -> nat
    decreases n,
{
    if n == 0 {
        1
    } else {
        10 * ten_to((n - 1) as nat)
    }
}

/// The last `places` decimal digits of a number, with leading zeros.
pub open spec fn padded(n: nat, places: nat) -> Seq<char>
    decreases places,
{
    if places == 0 {
        Seq::empty()
    } else {
        padded(n / 10, (places - 1) as nat).push(digit(n % 10))
    }
}

fn push_padded(out: &mut Vec<char>, n: u64, places: u32)
    ensures
        final(out)@ == old(out)@ + padded(n as nat, places as nat),
    decreases places,
{
    if places > 0 {
        push_padded(out, n / 10, places - 1);
        out.push(digit_char((n % 10) as u8));
    }
    assert(out@ =~= old(out)@ + padded(n as nat, places as nat));
}

/// A finite magnitude in units of `10^-places`, rounded to nearest, a tie to
/// the even neighbour.
pub open spec fn scaled(magnitude: nat, places: nat) -> nat {
    nearest_even(single_format().units(magnitude) * ten_to(places), pow2(UNIT_EXPONENT as nat))
}

/// A number in decimal with a fixed number of places after the point.
pub open spec fn fixed(value: Single, places: nat) -> Seq<char> {
    if value.spec_nan() {
        "NaN"@
    } else {
        let sign = if value.bits >= SIGN_BIT {
            seq!['-']
        } else {
            Seq::empty()
        };
        if !value.spec_finite() {
            sign + "inf"@
        } else {
            let n = scaled(magnitude(value.bits) as nat, places);
            sign + decimal(n / ten_to(places)) + seq!['.'] + padded(n % ten_to(places), places)
        }
    }
}

fn power_of_ten(places: u32) -> (r: u64)
    requires
        places <= 6,
    ensures
        r == ten_to(places as nat),
        1 <= r <= 1_000_000,
{
    let mut r: u64 = 1;
    let mut i: u32 = 0;
    proof {
        lemma_ten_to_small(places as nat);
    }
    while i < places
        invariant
            i <= places <= 6,
            r == ten_to(i as nat),
            r >= 1,
        decreases places - i,
    {
        proof {
            lemma_ten_to_small(i as nat);
        }
        r = 10 * r;
        i += 1;
    }
    r
}

proof fn lemma_ten_to_small(n: nat)
    requires
        n <= 6,
    ensures
        1 <= ten_to(n) <= 1_000_000,
{
    reveal_with_fuel(ten_to, 7);
}

/// A finite magnitude, split at the decimal point.
fn split_at_point(bits: u32, places: u32) -> (r: (u128, u64))
    requires
        magnitude(bits) == bits,
        (Single { bits }).spec_finite(),
        places <= 6,
    ensures
        r.0 == scaled(bits as nat, places as nat) / ten_to(places as nat),
        r.1 == scaled(bits as nat, places as nat) % ten_to(places as nat),
{
    proof {
        lemma_format_bounds(single_format());
        lemma2_to64();
        lemma2_to64_rest();
        lemma_ten_to_small(places as nat);
    }
    let ten = power_of_ten(places);
    let parts = parts_of(Format { fraction: 23, exponent: 8 }, bits as u64);
    let ghost m = parts.significand as nat;
    let ghost s = parts.scale as nat;
    let ghost t = ten as nat;
    let ghost units = single_format().units(bits as nat);
    let ghost one = pow2(UNIT_EXPONENT as nat);
    proof {
        lemma_pow2_pos(s);
        lemma_pow2_pos(UNIT_EXPONENT as nat);
        assert(bits as nat / pow2(23) <= 254) by {
            assert(pow2(23) == 0x80_0000);
        }
        assert(m < 0x100_0000);
        assert(s <= 253);
    }
    if parts.scale >= UNIT_EXPONENT {
        let k: u32 = parts.scale - UNIT_EXPONENT;
        let factor = power_of_two(k);
        proof {
            lemma_pow2_adds(k as nat, UNIT_EXPONENT as nat);
            assert(units * t == (m * factor * t) * one) by (nonlinear_arith)
                requires
                    units == m * pow2(s),
                    pow2(s) == factor * one,
            ;
            lemma_exact_ratio((m * factor * t) as nat, one);
            assert(m * factor <= u128::MAX) by {
                lemma_pow2_adds(24, 104);
                if k < 104 {
                    lemma_pow2_strictly_increases(k as nat, 104);
                }
                assert(pow2(128) == 0x1_0000_0000_0000_0000_0000_0000_0000_0000) by {
                    lemma_pow2_adds(64, 64);
                }
                assert(m * factor <= 0xff_ffff * pow2(104)) by (nonlinear_arith)
                    requires
                        m <= 0xff_ffff,
                        factor <= pow2(104),
                        m >= 0,
                        factor >= 0,
                ;
                assert(0xff_ffff * pow2(104) < pow2(24) * pow2(104)) by (nonlinear_arith)
                    requires
                        pow2(24) == 0x100_0000,
                        pow2(104) > 0,
                ;
            }
            lemma_div_multiples_vanish((m * factor) as int, t as int);
            assert(t * (m * factor) == m * factor * t) by (nonlinear_arith);
            vstd::arithmetic::div_mod::lemma_mod_multiples_basic((m * factor) as int, t as int);
        }
        (parts.significand as u128 * factor, 0)
    } else {
        let k: u32 = UNIT_EXPONENT - parts.scale;
        proof {
            assert(m * t < 0x100_0000_0000_0000) by (nonlinear_arith)
                requires
                    m < 0x100_0000,
                    t <= 1_000_000,
            ;
        }
        let n: u64 = parts.significand * ten;
        proof {
            lemma_pow2_adds(k as nat, s);
            lemma_pow2_pos(k as nat);
            lemma_ratio_scales(n as nat, pow2(k as nat), pow2(s));
            assert(units * t == n * pow2(s)) by (nonlinear_arith)
                requires
                    units == m * pow2(s),
                    n == m * t,
            ;
            assert(scaled(bits as nat, places as nat) == nearest_even(n as nat, pow2(k as nat)));
        }
        let whole: u64 = if k > 60 {
            proof {
                lemma_pow2_strictly_increases(60, k as nat);
                lemma_basic_div(n as int, pow2(k as nat) as int);
                lemma_small_mod(n as nat, pow2(k as nat));
            }
            0
        } else {
            let d: u128 = power_of_two(k);
            let quotient: u64 = (n as u128 / d) as u64;
            let rest: u128 = n as u128 % d;
            if 2 * rest > d || (2 * rest == d && quotient % 2 == 1) {
                quotient + 1
            } else {
                quotient
            }
        };
        ((whole / ten) as u128, whole % ten)
    }
}

/// Appends a number in decimal with a fixed number of places.
pub fn push_fixed(out: &mut Vec<char>, value: Single, places: u32)
    requires
        places <= 6,
    ensures
        final(out)@ == old(out)@ + fixed(value, places as nat),
{
    if value.is_nan() {
        push_text(out, "NaN");
        return;
    }
    let bits: u32 = if value.bits >= SIGN_BIT {
        out.push('-');
        value.bits - SIGN_BIT
    } else {
        value.bits
    };
    if !value.is_finite() {
        push_text(out, "inf");
        assert(out@ =~= old(out)@ + fixed(value, places as nat));
        return;
    }
    let (whole, rest) = split_at_point(bits, places);
    push_decimal(out, whole);
    out.push('.');
    push_padded(out, rest, places);
    assert(out@ =~= old(out)@ + fixed(value, places as nat));
}

/// The number that a run of decimal digits stands for.
pub open spec fn digits_value(s: Seq<char>) -> nat
    decreases s.len(),
{
    if s.len() == 0 {
        0
    } else {
        10 * digits_value(s.drop_last()) + (s.last() as nat - 48) as nat
    }
}

/// A number without the plus sign in front of it.
pub open spec fn without_plus(s: Seq<char>) -> Seq<char> {
    if s.len() > 0 && s[0] == '+' {
        s.skip(1)
    } else {
        s
    }
}

/// The natural number below `2^32` that a text is, if it is one: decimal
/// digits after an optional plus sign.
pub open spec fn natural_of(s: Seq<char>) -> Option<nat> {
    let body = without_plus(s);
    if body.len() > 0 && all_digits(body) && digits_value(body) <= u32::MAX {
        Some(digits_value(body))
    } else {
        None
    }
}

proof fn lemma_prefix_value(s: Seq<char>, n: nat)
    requires
        n <= s.len(),
    ensures
        digits_value(s.take(n as int)) <= digits_value(s),
    decreases s.len(),
{
    if n < s.len() {
        lemma_prefix_value(s.drop_last(), n);
        assert(s.drop_last().take(n as int) =~= s.take(n as int));
    } else {
        assert(s.take(n as int) =~= s);
    }
}

/// Reads a natural number below `2^32`.
pub fn parse_natural(s: &Vec<char>) -> (r: Option<u32>)
    ensures
        match r {
            Some(n) => natural_of(s@) == Some(n as nat),
            None => natural_of(s@) is None,
        },
{
    let from: usize = if s.len() > 0 && s[0] == '+' {
        1
    } else {
        0
    };
    let ghost body = without_plus(s@);
    assert(body =~= s@.skip(from as int));
    if from == s.len() {
        return None;
    }
    let mut value: u32 = 0;
    let mut i: usize = from;
    assert(body.take(0) =~= Seq::empty());
    while i < s.len()
        invariant
            from <= i <= s@.len(),
            body == s@.skip(from as int),
            body == without_plus(s@),
            from < s@.len(),
            value == digits_value(body.take(i - from)),
            forall|j: int| 0 <= j < i - from ==> '0' <= #[trigger] body[j] <= '9',
        decreases s@.len() - i,
    {
        let c: char = s[i];
        assert(c == body[i - from]);
        if c < '0' || c > '9' {
            return None;
        }
        let d: u32 = crate::unicode::code_point(c) - 48;
        let next: u64 = 10 * value as u64 + d as u64;
        proof {
            let longer = body.take(i + 1 - from);
            assert(longer.drop_last() =~= body.take(i - from));
            assert(next == digits_value(longer));
            lemma_prefix_value(body, (i + 1 - from) as nat);
        }
        if next > u32::MAX as u64 {
            return None;
        }
        value = next as u32;
        i += 1;
    }
    assert(body.take(s@.len() - from) =~= body);
    Some(value)
}

/// Numbers in decimal with commas between them, the first `n` of them.
pub open spec fn listed(numbers: Seq<u32>, separator: Seq<char>, n: nat) -> Seq<char>
    decreases n,
{
    if n == 0 {
        Seq::empty()
    } else if n == 1 {
        decimal(numbers[0] as nat)
    } else {
        listed(numbers, separator, (n - 1) as nat) + separator + decimal(numbers[n - 1] as nat)
    }
}

/// Appends numbers in decimal with a separator between them.
pub fn push_list(out: &mut Vec<char>, numbers: &Vec<u32>, separator: &str)
    ensures
        final(out)@ == old(out)@ + listed(numbers@, separator@, numbers@.len()),
{
    let mut i: usize = 0;
    assert(out@ =~= old(out)@ + listed(numbers@, separator@, 0));
    while i < numbers.len()
        invariant
            i <= numbers@.len(),
            out@ == old(out)@ + listed(numbers@, separator@, i as nat),
        decreases numbers@.len() - i,
    {
        if i > 0 {
            push_text(out, separator);
        }
        push_decimal(out, numbers[i] as u128);
        i += 1;
        assert(out@ =~= old(out)@ + listed(numbers@, separator@, i as nat));
    }
}

} // verus!
