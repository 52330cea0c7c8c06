use pdf_inspector::double::Double;
use pdf_inspector::numbers::{parse_natural, push_decimal, push_fixed};
use pdf_inspector::single::Single;

fn samples() -> Vec<f32> {
    let mut list = vec![
        0.0,
        -0.0,
        1.0,
        -1.0,
        0.1,
        -0.1,
        0.5,
        1.5,
        2.5,
        3.0,
        1.0 / 3.0,
        612.0,
        792.0,
        0.001,
        1e-40,
        -1e-40,
        f32::MIN_POSITIVE,
        f32::MAX,
        f32::MIN,
        f32::EPSILON,
        f32::INFINITY,
        f32::NEG_INFINITY,
        f32::NAN,
        16_777_216.0,
        123.456,
        -98_765.43,
        1e20,
        1e-20,
    ];
    // A fixed walk over bit patterns.
    let mut bits: u32 = 0x1234_5678;
    for _ in 0..40 {
        bits = bits.wrapping_mul(1_664_525).wrapping_add(1_013_904_223);
        list.push(f32::from_bits(bits));
    }
    list
}

fn f(x: f32) -> Single {
    Single { bits: x.to_bits() }
}

fn d(x: f64) -> Double {
    Double { bits: x.to_bits() }
}

fn same(a: Single, b: f32) -> bool {
    let a = f32::from_bits(a.bits);
    (a.is_nan() && b.is_nan()) || a.to_bits() == b.to_bits()
}

fn same_wide(a: Double, b: f64) -> bool {
    let a = f64::from_bits(a.bits);
    (a.is_nan() && b.is_nan()) || a.to_bits() == b.to_bits()
}

#[test]
fn single_arithmetic_agrees_with_the_machine() {
    for &a in &samples() {
        for &b in &samples() {
            assert!(same(f(a).plus(f(b)), a + b), "{a} + {b}");
            assert!(same(f(a).minus(f(b)), a - b), "{a} - {b}");
            assert!(same(f(a).times(f(b)), a * b), "{a} * {b}");
            assert!(same(f(a).over(f(b)), a / b), "{a} / {b}");
            assert_eq!(f(a).less(f(b)), a < b);
            assert_eq!(f(a).at_most(f(b)), a <= b);
            assert_eq!(f(a).same(f(b)), a == b);
            let least = f32::from_bits(f(a).min(f(b)).bits);
            assert!(least == a.min(b) || (least.is_nan() && a.min(b).is_nan()));
            let most = f32::from_bits(f(a).max(f(b)).bits);
            assert!(most == a.max(b) || (most.is_nan() && a.max(b).is_nan()));
        }
    }
}

#[test]
fn single_roots_and_remainders_agree_with_the_machine() {
    for &a in &samples() {
        assert!(same(f(a).root(), a.sqrt()), "sqrt {a}");
        assert!(same(f(a).negated(), -a));
        assert!(same(f(a).absolute(), a.abs()));
        assert_eq!(f(a).is_finite(), a.is_finite());
        assert_eq!(f(a).is_nan(), a.is_nan());
        assert_eq!(f(a).truncated(), a as i32);
        assert_eq!(f(a).rounded(), a.round() as i32);
        if a.is_finite() {
            assert!(same(f(a).rem_euclid(f(360.0)), a.rem_euclid(360.0)), "{a} mod 360");
        }
    }
}

#[test]
fn integers_become_the_nearest_single() {
    for n in [0u64, 1, 2, 3, 255, 16_777_216, 16_777_217, 16_777_219, u32::MAX as u64, u64::MAX] {
        assert!(same(Single::from_natural(n), n as f32), "{n}");
        assert!(same_wide(Double::from_natural(n), n as f64), "{n}");
    }
    for n in [0i64, -1, 5, -16_777_217, i64::MIN, i64::MAX] {
        assert!(same(Single::from_integer(n), n as f32), "{n}");
    }
}

#[test]
fn double_arithmetic_agrees_with_the_machine() {
    let values: Vec<f64> = samples().into_iter().map(|x| f64::from(x) * 1.000_000_000_1).collect();
    for &a in &values {
        assert!(same(d(a).narrowed(), a as f32), "{a} narrowed");
        for &b in &values {
            assert!(same_wide(d(a).plus(d(b)), a + b), "{a} + {b}");
            assert!(same_wide(d(a).minus(d(b)), a - b), "{a} - {b}");
            assert!(same_wide(d(a).times(d(b)), a * b), "{a} * {b}");
            assert!(same_wide(d(a).over(d(b)), a / b), "{a} / {b}");
            assert_eq!(d(a).less(d(b)), a < b);
            assert_eq!(d(a).at_most(d(b)), a <= b);
        }
    }
    for &a in &samples() {
        assert!(same_wide(Double::widened(f(a)), f64::from(a)), "{a} widened");
    }
}

#[test]
fn doubles_round_to_whole_numbers_within_a_limit() {
    for x in [0.0, -0.0, 0.2, 0.99, 1.0, 7.5, 19.999, 20.0, 20.5, 1e9, 1e300, -3.5, f64::NAN, f64::INFINITY] {
        let floor = x.floor().max(0.0).min(20.0) as u32;
        let ceiling = x.ceil().max(0.0).min(20.0) as u32;
        assert_eq!(d(x).floor_within(20), floor, "{x}");
        assert_eq!(d(x).ceiling_within(20), ceiling, "{x}");
    }
}

#[test]
fn fixed_decimals_agree_with_the_machine() {
    let mut list = samples();
    list.extend([0.125, 0.375, 0.625, 2.675, 12.345, 67.891, 0.995, 999.995, 1e10, 3.4e38]);
    for &x in &list {
        let mut out = Vec::new();
        push_fixed(&mut out, f(x), 2);
        assert_eq!(out.iter().collect::<String>(), format!("{x:.2}"));
        let mut out = Vec::new();
        push_fixed(&mut out, f(x), 4);
        assert_eq!(out.iter().collect::<String>(), format!("{x:.4}"));
    }
}

#[test]
fn naturals_are_written_and_read_in_decimal() {
    for n in [0u128, 9, 10, 99, 4_294_967_296, u128::MAX] {
        let mut out = vec!['#'];
        push_decimal(&mut out, n);
        assert_eq!(out.iter().collect::<String>(), format!("#{n}"));
    }
    for text in ["0", "7", "007", "+12", "4294967295", "4294967296", "", "+", "-1", "1a", " 1", "99999999999999"] {
        let chars: Vec<char> = text.chars().collect();
        assert_eq!(parse_natural(&chars), text.parse::<u32>().ok(), "{text:?}");
    }
}
