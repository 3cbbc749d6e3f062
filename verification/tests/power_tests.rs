use n_calculator::exp;
use n_calculator::integer_power;
use n_calculator::ln;
use n_calculator::parse_decimal;
use n_calculator::power;
use n_calculator::to_decimal_string;
use n_calculator::Dec;
use n_calculator::MathError;

const SCALE: u128 = 1_000_000_000_000_000;

fn half() -> Dec {
    Dec { neg: false, mag: SCALE / 2 }
}

fn close_to(a: Dec, b: Dec, tol_units: u128) -> bool {
    let d = a.checked_sub(b).unwrap();
    d.mag <= tol_units
}

#[test]
fn lib_pow_test() {
    assert_eq!(power(Dec::from_int(2), Dec::from_int(4)), Ok(Dec::from_int(16)));
}

#[test]
fn math_pow_test() {
    assert_eq!(power(Dec::from_int(2), Dec::from_int(4)), Ok(Dec::from_int(16)));
}

#[test]
fn negative_pow() {
    assert_eq!(power(Dec::from_int(2), Dec::from_int(-1)), Ok(half()));
}

#[test]
fn fract_pow() {
    // 4^0.5 round-trips through ln/exp to 2 within the series tolerance.
    let r = power(Dec::from_int(4), half()).unwrap();
    assert!(close_to(r, Dec::from_int(2), 1_000_000));
}

#[test]
fn integer_power_exact() {
    assert_eq!(integer_power(Dec::from_int(2), Dec::from_int(4)), Ok(Dec::from_int(16)));
    assert_eq!(integer_power(Dec::from_int(2), Dec::from_int(-1)), Ok(half()));
    assert_eq!(integer_power(Dec::from_int(7), Dec::from_int(0)), Ok(Dec::from_int(1)));
    assert_eq!(integer_power(Dec::from_int(-3), Dec::from_int(3)), Ok(Dec::from_int(-27)));
}

#[test]
fn power_identity_laws_on_values() {
    let x = parse_decimal("3.25").unwrap();
    assert_eq!(power(x, Dec::from_int(1)), Ok(x));
    assert_eq!(power(x, Dec::from_int(0)), Ok(Dec::from_int(1)));
    let p3 = power(x, Dec::from_int(3)).unwrap();
    let inv = Dec::from_int(1).checked_div(p3).unwrap();
    assert_eq!(power(x, Dec::from_int(-3)), Ok(inv));
}

#[test]
fn ln_of_one_is_zero() {
    assert_eq!(ln(Dec::from_int(1)), Ok(Dec { neg: false, mag: 0 }));
}

#[test]
fn ln_of_zero_is_degenerate_zero() {
    assert_eq!(ln(Dec::from_int(0)), Ok(Dec { neg: false, mag: 0 }));
}

#[test]
fn ln_rejects_negative_argument() {
    assert_eq!(ln(Dec::from_int(-1)), Err(MathError::NonPositiveBase));
}

#[test]
fn ln_far_from_one_hits_iteration_cap() {
    assert_eq!(ln(Dec::from_int(100_000_000)), Err(MathError::NonConvergence));
}

#[test]
fn exp_recovers_ln_argument() {
    for v in [2i64, 3, 5] {
        let x = Dec::from_int(v);
        let l = ln(x).unwrap();
        let back = exp(l).unwrap();
        assert!(back.checked_sub(x).unwrap().mag <= 1_000_000);
    }
}

#[test]
fn fractional_power_rejects_non_positive_base() {
    assert_eq!(power(Dec::from_int(-2), half()), Err(MathError::NonPositiveBase));
    assert_eq!(power(Dec::from_int(0), half()), Err(MathError::NonPositiveBase));
}

#[test]
fn parse_and_render_round_trip() {
    for s in ["0", "81", "-2.5", "0.000000000000001", "123456789.987654321"] {
        let d = parse_decimal(s).unwrap();
        let rendered = to_decimal_string(&d);
        assert_eq!(parse_decimal(&rendered), Some(d));
    }
}

#[test]
fn render_is_fixed_width() {
    assert_eq!(to_decimal_string(&Dec::from_int(81)), "81.000000000000000");
    assert_eq!(to_decimal_string(&Dec::from_int(-2)), "-2.000000000000000");
    assert_eq!(
        to_decimal_string(&Dec { neg: false, mag: SCALE / 2 }),
        "0.500000000000000"
    );
}

#[test]
fn parse_truncates_extra_fraction_digits() {
    let d = parse_decimal("0.12345678901234567890").unwrap();
    assert_eq!(d, Dec { neg: false, mag: 123_456_789_012_345 });
}

#[test]
fn parse_canonicalises_negative_zero() {
    assert_eq!(parse_decimal("-0"), Some(Dec { neg: false, mag: 0 }));
    assert_eq!(parse_decimal("-0.0"), Some(Dec { neg: false, mag: 0 }));
}
