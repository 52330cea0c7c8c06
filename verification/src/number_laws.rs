//! What written numbers owe to their values.

use crate::fractions::{units_of, whole};
use crate::ieee::{lemma_exact_ratio, single_format};
use crate::numbers::{decimal, digit, digits_value, fixed, natural_of, padded, scaled, ten_to};
use crate::single::{magnitude, Single};
use crate::text_utils::all_digits;
use crate::unicode::ascii_digit;
use vstd::arithmetic::div_mod::lemma_fundamental_div_mod;
use vstd::arithmetic::power2::{lemma2_to64, lemma_pow2_pos, pow2};
use vstd::prelude::*;

verus! {

proof fn lemma_digit(d: nat)
    requires
        d < 10,
    ensures
        ascii_digit(digit(d)),
        digit(d) as nat == 48 + d,
{
}

proof fn lemma_pushed_digit(s: Seq<char>, d: nat)
    requires
        all_digits(s),
        d < 10,
    ensures
        all_digits(s.push(digit(d))),
        digits_value(s.push(digit(d))) == 10 * digits_value(s) + d,
{
    lemma_digit(d);
    assert(s.push(digit(d)).drop_last() =~= s);
    assert forall|i: int| 0 <= i < s.push(digit(d)).len() implies ascii_digit(#[trigger] s.push(digit(d))[i]) by {
        if i < s.len() {
            assert(s.push(digit(d))[i] == s[i]);
        }
    }
}

/// A number that is written out reads back as itself, and its first digit is
/// zero only where it is.
pub proof fn law_written_numbers_read_back(n: nat)
    ensures
        decimal(n).len() > 0,
        all_digits(decimal(n)),
        digits_value(decimal(n)) == n,
        n > 0 ==> decimal(n)[0] != '0',
        n <= u32::MAX ==> natural_of(decimal(n)) == Some(n),
        n <= u32::MAX ==> natural_of(seq!['+'] + decimal(n)) == Some(n),
    decreases n,
{
    if n < 10 {
        lemma_digit(n);
        let none = Seq::<char>::empty();
        assert(digits_value(none) == 0);
        lemma_pushed_digit(none, n);
        assert(none.push(digit(n)) =~= seq![digit(n)]);
    } else {
        law_written_numbers_read_back(n / 10);
        lemma_pushed_digit(decimal(n / 10), n % 10);
        assert(decimal(n)[0] == decimal(n / 10)[0]);
        lemma_fundamental_div_mod(n as int, 10);
    }
    assert(ascii_digit(decimal(n)[0]));
    let signed = seq!['+'] + decimal(n);
    assert(signed.skip(1) =~= decimal(n));
}

/// Two numbers that are written alike are the same.
pub proof fn law_numbers_are_told_apart(m: nat, n: nat)
    requires
        decimal(m) == decimal(n),
    ensures
        m == n,
{
    law_written_numbers_read_back(m);
    law_written_numbers_read_back(n);
}

/// A padded number has as many digits as it was given places, and stands for
/// what is left of it there.
pub proof fn law_padded_numbers_fill_their_places(n: nat, places: nat)
    requires
        n < ten_to(places),
    ensures
        padded(n, places).len() == places,
        all_digits(padded(n, places)),
        digits_value(padded(n, places)) == n,
    decreases places,
{
    if places > 0 {
        let rest = (places - 1) as nat;
        assert(n / 10 < ten_to(rest)) by (nonlinear_arith)
            requires
                n < 10 * ten_to(rest),
        ;
        law_padded_numbers_fill_their_places(n / 10, rest);
        lemma_pushed_digit(padded(n / 10, rest), n % 10);
        lemma_fundamental_div_mod(n as int, 10);
    }
}

proof fn lemma_ten_to_positive(places: nat)
    ensures
        ten_to(places) > 0,
    decreases places,
{
    if places > 0 {
        lemma_ten_to_positive((places - 1) as nat);
    }
}

proof fn lemma_padded_zero(places: nat)
    ensures
        padded(0, places).len() == places,
        forall|i: int| 0 <= i < places ==> #[trigger] padded(0, places)[i] == '0',
    decreases places,
{
    if places > 0 {
        lemma_padded_zero((places - 1) as nat);
        assert(digit(0) == '0');
    }
}

/// A whole number is written with its digits before the point and zeros behind
/// it, and a sign where it is below zero.
pub proof fn law_whole_numbers_are_written_exactly(value: Single, n: int, places: nat)
    requires
        whole(value, n),
    ensures
        n > 0 ==> fixed(value, places) == decimal(n as nat).push('.') + Seq::new(places, |i: int| '0'),
        n < 0 ==> fixed(value, places) == seq!['-'] + decimal((-n) as nat).push('.') + Seq::new(places, |i: int| '0'),
{
    lemma2_to64();
    lemma_pow2_pos(149);
    lemma_ten_to_positive(places);
    let f = single_format();
    let m = magnitude(value.bits) as nat;
    let size = if n < 0 {
        (-n) as nat
    } else {
        n as nat
    };
    let p = pow2(149);
    let t = ten_to(places);
    assert(units_of(value) * 1 == n * p);
    if n != 0 {
        assert(n > 0 ==> n * p > 0) by (nonlinear_arith)
            requires
                p > 0,
        ;
        assert(n < 0 ==> n * p < 0) by (nonlinear_arith)
            requires
                p > 0,
        ;
        assert((-n) * p == -(n * p)) by (nonlinear_arith);
        assert(f.units(m) == size * p);
        assert((size * p) * t == (size * t) * p) by (nonlinear_arith);
        lemma_exact_ratio(size * t, p);
        assert(scaled(m, places) == size * t);
        vstd::arithmetic::div_mod::lemma_fundamental_div_mod_converse((size * t) as int, t as int, size as int, 0);
        lemma_padded_zero(places);
        let zeros = Seq::new(places, |i: int| '0');
        assert(padded(0, places) =~= zeros);
        assert(value.bits >= crate::single::SIGN_BIT <==> n < 0);
        if n > 0 {
            assert(fixed(value, places) =~= decimal(size).push('.') + zeros);
        } else {
            assert(fixed(value, places) =~= seq!['-'] + decimal(size).push('.') + zeros);
        }
    }
}

} // verus!
