use std::str::FromStr;

use big_number::{
    BigFixed, BigIntCore, BigUintCore, MathContext, ParseBigFixedError, RoundingMode, Sign,
};

fn fixed<const SCALE: u32>(text: &str) -> BigFixed<SCALE> {
    BigFixed::<SCALE>::from_str(text).unwrap()
}

fn context(rounding: RoundingMode) -> MathContext {
    MathContext { rounding, guard_digits: 8 }
}

#[test]
fn text_round_trips_through_parse() {
    for text in ["0.00", "-0.05", "12.34", "-123456789012345678901234567890.99", "0.10"] {
        let value = fixed::<2>(text);
        let again = BigFixed::<2>::from_str(&value.to_string()).unwrap();
        assert_eq!(again, value);
        assert_eq!(again.to_string(), text);
    }
    for text in ["0", "-7", "18446744073709551616"] {
        let value = fixed::<0>(text);
        assert_eq!(BigFixed::<0>::from_str(&value.to_string()).unwrap(), value);
        assert_eq!(value.to_string(), text);
    }
}

#[test]
fn display_pads_small_magnitudes() {
    assert_eq!(fixed::<4>("0.0012").to_string(), "0.0012");
    assert_eq!(fixed::<4>("-0.0012").to_string(), "-0.0012");
    assert_eq!(fixed::<3>("5").to_string(), "5.000");
    assert_eq!(BigFixed::<3>::zero().to_string(), "0.000");
    assert_eq!(BigFixed::<3>::default().to_string(), "0.000");
}

#[test]
fn trimmed_text_drops_trailing_zeros_and_point() {
    assert_eq!(fixed::<2>("1.50").to_trimmed_string(), "1.5");
    assert_eq!(fixed::<2>("2.00").to_trimmed_string(), "2");
    assert_eq!(fixed::<2>("-0.10").to_trimmed_string(), "-0.1");
    assert_eq!(fixed::<2>("10.00").to_trimmed_string(), "10");
    assert_eq!(fixed::<0>("100").to_trimmed_string(), "100");
    assert_eq!(BigFixed::<2>::zero().to_trimmed_string(), "0");
}

#[test]
fn parse_accepts_signs_white_space_and_bare_points() {
    assert_eq!(fixed::<2>(" \t+12.5\n").to_string(), "12.50");
    assert_eq!(fixed::<2>("\u{3000}-3\u{2029}").to_string(), "-3.00");
    assert_eq!(fixed::<2>(".5").to_string(), "0.50");
    assert_eq!(fixed::<2>("5.").to_string(), "5.00");
    assert_eq!(fixed::<2>("-0.00").mantissa().sign(), Sign::Zero);
}

#[test]
fn parse_reports_each_error() {
    assert_eq!(BigFixed::<2>::from_str("").unwrap_err(), ParseBigFixedError::Empty);
    assert_eq!(BigFixed::<2>::from_str(" \n ").unwrap_err(), ParseBigFixedError::Empty);
    for text in ["-", "+", ".", "-.", "1.2.3", "1..2"] {
        assert_eq!(
            BigFixed::<2>::from_str(text).unwrap_err(),
            ParseBigFixedError::InvalidFormat,
            "{}",
            text
        );
    }
    assert_eq!(
        BigFixed::<2>::from_str("1x.5").unwrap_err(),
        ParseBigFixedError::InvalidCharacter('x')
    );
    assert_eq!(
        BigFixed::<2>::from_str("--1").unwrap_err(),
        ParseBigFixedError::InvalidCharacter('-')
    );
    assert_eq!(
        BigFixed::<2>::from_str("1 .5").unwrap_err(),
        ParseBigFixedError::InvalidCharacter(' ')
    );
    assert_eq!(
        BigFixed::<1>::from_str("1.2\u{e9}").unwrap_err(),
        ParseBigFixedError::FractionalDigitsExceedScale { found: 3, scale: 1 }
    );
    assert_eq!(
        BigFixed::<3>::from_str("1.2\u{e9}").unwrap_err(),
        ParseBigFixedError::InvalidCharacter('\u{e9}')
    );
}

#[test]
fn addition_and_subtraction_are_exact_and_inverse() {
    let a = fixed::<3>("123.456");
    let b = fixed::<3>("-0.999");
    let sum = a.clone() + b.clone();
    assert_eq!(sum.to_string(), "122.457");
    assert_eq!((sum - b.clone()), a);
    assert_eq!((-b).to_string(), "0.999");
}

#[test]
fn multiplication_commutes_and_rounds_half_even() {
    let a = fixed::<1>("0.5");
    let b = fixed::<1>("0.5");
    assert_eq!((a.clone() * b.clone()).to_string(), "0.2");
    let c = fixed::<1>("1.5");
    assert_eq!((c.clone() * fixed::<1>("0.5")).to_string(), "0.8");
    assert_eq!((fixed::<1>("0.5") * c).to_string(), "0.8");
    assert_eq!((fixed::<2>("-1.25") * fixed::<2>("0.10")).to_string(), "-0.12");
}

#[test]
fn one_is_neutral() {
    let value = fixed::<3>("-7.125");
    assert_eq!(value.clone() * BigFixed::<3>::one(), value);
    assert_eq!(value.checked_div(&BigFixed::<3>::one()).unwrap(), value);
    assert_eq!(value.powu(1), value);
    assert_eq!(value.powu(0), BigFixed::<3>::one());
}

#[test]
fn division_rounds_under_each_mode() {
    let one = fixed::<2>("1.00");
    let minus = fixed::<2>("-1.00");
    let three = fixed::<2>("3.00");
    assert_eq!(one.checked_div(&three).unwrap().to_string(), "0.33");
    assert_eq!(
        one.checked_div_with_mode(&three, RoundingMode::Up).unwrap().to_string(),
        "0.34"
    );
    assert_eq!(
        minus.checked_div_with_mode(&three, RoundingMode::Floor).unwrap().to_string(),
        "-0.34"
    );
    assert_eq!(
        minus.checked_div_with_mode(&three, RoundingMode::Ceil).unwrap().to_string(),
        "-0.33"
    );
    assert_eq!(
        minus.checked_div_with_mode(&three, RoundingMode::Down).unwrap().to_string(),
        "-0.33"
    );
    let eight = fixed::<2>("8.00");
    assert_eq!(
        one.checked_div_with_mode(&eight, RoundingMode::HalfUp).unwrap().to_string(),
        "0.13"
    );
    assert_eq!(one.checked_div(&eight).unwrap().to_string(), "0.12");
    assert_eq!((fixed::<2>("0.00") / three).to_string(), "0.00");
    assert!(one.checked_div(&BigFixed::<2>::zero()).is_none());
}

#[test]
fn integer_rounding_brackets_the_value() {
    let value = fixed::<2>("-12.25");
    assert_eq!(value.floor().to_string(), "-13.00");
    assert_eq!(value.ceil().to_string(), "-12.00");
    assert_eq!(value.trunc().to_string(), "-12.00");
    assert_eq!(value.round().to_string(), "-12.00");
    assert_eq!(value.round_with_mode(RoundingMode::Up).to_string(), "-13.00");
    assert_eq!(fixed::<2>("2.50").round_with_mode(RoundingMode::HalfUp).to_string(), "3.00");
    assert_eq!(fixed::<2>("2.50").round().to_string(), "2.00");
    assert_eq!(fixed::<2>("7.00").floor().to_string(), "7.00");
    assert_eq!(fixed::<0>("7").ceil().to_string(), "7");
}

#[test]
fn rescaling_up_and_back_is_identity() {
    let value = fixed::<2>("-1.29");
    let wide = value.rescale::<6>();
    assert_eq!(wide.to_string(), "-1.290000");
    assert_eq!(wide.rescale::<2>(), value);
    assert_eq!(
        fixed::<3>("-1.235").rescale_with_context::<2>(context(RoundingMode::Floor)).to_string(),
        "-1.24"
    );
    assert_eq!(fixed::<3>("1.235").rescale::<2>().to_string(), "1.24");
    assert_eq!(fixed::<3>("1.245").rescale::<2>().to_string(), "1.24");
}

#[test]
fn powers_at_scale_zero_are_integer_powers() {
    assert_eq!(fixed::<0>("3").powu(5).to_string(), "243");
    assert_eq!(fixed::<0>("-2").powu(63).to_string(), "-9223372036854775808");
    assert_eq!(fixed::<0>("10").powu(20).to_string(), "100000000000000000000");
}

#[test]
fn negative_powers_divide_one() {
    assert_eq!(fixed::<2>("2.00").powi(-2).to_string(), "0.25");
    assert_eq!(fixed::<2>("4.00").checked_powi(-1).unwrap().to_string(), "0.25");
    assert!(BigFixed::<2>::zero().checked_powi(-3).is_none());
    assert!(fixed::<2>("0.01").checked_powi(-2).is_none());
    assert_eq!(fixed::<2>("0.01").checked_powi(2).unwrap().to_string(), "0.00");
}

#[test]
fn square_roots_round_to_nearest() {
    assert_eq!(fixed::<4>("2.0000").sqrt().to_string(), "1.4142");
    assert_eq!(fixed::<2>("2.25").sqrt().to_string(), "1.50");
    assert_eq!(
        fixed::<4>("2.0000").checked_sqrt_with_mode(RoundingMode::Up).unwrap().to_string(),
        "1.4143"
    );
    assert_eq!(BigFixed::<2>::zero().sqrt(), BigFixed::<2>::zero());
    assert!(fixed::<2>("-0.01").checked_sqrt().is_none());
}

#[test]
fn roots_of_exact_powers_are_exact() {
    assert_eq!(fixed::<2>("-27.00").nth_root(3).to_string(), "-3.00");
    assert_eq!(fixed::<3>("0.008").nth_root(3).to_string(), "0.200");
    assert_eq!(fixed::<0>("1024").nth_root(10).to_string(), "2");
    assert!(fixed::<2>("-16.00").checked_nth_root(4).is_none());
    assert!(fixed::<2>("16.00").checked_nth_root(0).is_none());
    assert_eq!(BigFixed::<2>::zero().nth_root(4), BigFixed::<2>::zero());
}

#[test]
fn ordering_follows_the_value() {
    assert!(fixed::<2>("-1.00") < fixed::<2>("-0.99"));
    assert!(fixed::<2>("0.01") > BigFixed::<2>::zero());
    assert!(fixed::<2>("1.10") == fixed::<2>("1.1"));
    assert!(fixed::<2>("1.10") != fixed::<2>("1.11"));
}

#[test]
fn decimal_digits_round_trip() {
    for text in ["0", "7", "18446744073709551615", "18446744073709551616", "340282366920938463463374607431768211456"] {
        let value = BigUintCore::from_decimal_digits(text).unwrap();
        assert_eq!(value.to_decimal_string(), text);
    }
    assert_eq!(BigUintCore::from_decimal_digits("").unwrap(), BigUintCore::zero());
    assert!(BigUintCore::from_decimal_digits("12a").is_none());
    assert_eq!(BigUintCore::from_decimal_digits("007").unwrap().to_decimal_string(), "7");
}

#[test]
fn big_integers_keep_signs_and_limits() {
    let min = BigIntCore::from_i64(i64::MIN);
    assert_eq!(min.sign(), Sign::Negative);
    assert_eq!(min.magnitude().to_decimal_string(), "9223372036854775808");
    let product = min.mul(&min);
    assert_eq!(product.magnitude().to_decimal_string(), "85070591730234615865843651857942052864");
    assert_eq!(min.negated().add(&min).sign(), Sign::Zero);
    assert_eq!(BigIntCore::from_parts(Sign::Negative, BigUintCore::zero()).sign(), Sign::Zero);
    assert_eq!(BigUintCore::from_u64(1).shl_bits(100).bit_len(), 101);
    let (q, r) = BigUintCore::from_u64(1).shl_bits(70).div_rem_small(7);
    assert_eq!(q.to_decimal_string(), "168655945816773043346");
    assert_eq!(r, 2);
    assert_eq!(BigUintCore::from_u64(10).pow_u32(25).to_decimal_string(), "10000000000000000000000000");
    assert_eq!(BigUintCore::from_u64(5).mul_pow10(3).to_decimal_string(), "5000");
    let big = BigUintCore::from_u64(u64::MAX).mul(&BigUintCore::from_u64(3));
    assert_eq!(big.sub(&BigUintCore::from_u64(u64::MAX)).to_decimal_string(), "36893488147419103230");
}

#[test]
fn default_context_is_half_even_with_eight_guard_digits() {
    let context = MathContext::default();
    assert_eq!(context.rounding, RoundingMode::HalfEven);
    assert_eq!(context.guard_digits, 8);
}

#[test]
fn transcendental_values_at_exact_points() {
    assert_eq!(BigFixed::<6>::zero().exp().to_string(), "1.000000");
    assert_eq!(BigFixed::<6>::one().ln().to_string(), "0.000000");
    assert_eq!(fixed::<6>("10").log10().to_string(), "1.000000");
    assert_eq!(BigFixed::<6>::zero().sin().to_string(), "0.000000");
    assert_eq!(BigFixed::<6>::zero().cos().to_string(), "1.000000");
    assert_eq!(fixed::<6>("1").exp().to_string(), "2.718282");
    assert_eq!(fixed::<6>("-1").exp().to_string(), "0.367879");
    assert!(fixed::<6>("-0.000001").checked_ln().is_none());
    assert!(fixed::<6>("0.000001").checked_ln().is_some());
    assert!(BigFixed::<2>::zero().checked_log10().is_none());
}

#[test]
fn trimmed_text_round_trips_through_parse() {
    for text in ["1.50", "2.00", "-0.10", "0.00", "-12.34", "100.00"] {
        let value = fixed::<2>(text);
        let trimmed = value.to_trimmed_string();
        assert_eq!(BigFixed::<2>::from_str(&trimmed).unwrap(), value, "{}", trimmed);
    }
}

#[test]
fn exponential_is_at_least_one_for_nonnegative_values() {
    for text in ["0", "0.000001", "3.5", "12"] {
        assert!(fixed::<6>(text).exp() >= BigFixed::<6>::one());
    }
    for text in ["-0.000001", "-3.5", "-40"] {
        let value = fixed::<6>(text).exp();
        assert!(value <= BigFixed::<6>::one());
        assert!(value >= BigFixed::<6>::zero());
    }
}

#[test]
fn trigonometry_at_zero_and_tangent_poles() {
    assert_eq!(BigFixed::<8>::zero().tan().to_string(), "0.00000000");
    assert_eq!(fixed::<6>("0.785398").tan().to_string(), "1.000000");
    assert!(fixed::<12>("1.570796326795").checked_tan().is_none());
    assert!(fixed::<12>("-1.570796326795").checked_tan().is_none());
    assert_eq!(fixed::<6>("3.141593").sin().to_string(), "0.000000");
}

#[test]
fn log10_and_exp_under_ceil_with_twelve_guard_digits() {
    let context = MathContext { rounding: RoundingMode::Ceil, guard_digits: 12 };
    let value = fixed::<4>("2.0000");
    assert_eq!(value.checked_log10_with_context(context).unwrap().to_string(), "0.3010");
    assert_eq!(value.checked_exp_with_context(context).unwrap().to_string(), "7.3891");
}

#[test]
fn transcendentals_with_twelve_guard_digits_to_nearest() {
    let context = MathContext { rounding: RoundingMode::HalfEven, guard_digits: 12 };
    let two = fixed::<4>("2.0000");
    assert_eq!(two.checked_ln_with_context(context).unwrap().to_string(), "0.6931");
    assert_eq!(two.checked_log10_with_context(context).unwrap().to_string(), "0.3010");
    assert_eq!(fixed::<4>("1.0000").checked_exp_with_context(context).unwrap().to_string(), "2.7183");
    let six = fixed::<6>("2.000000");
    assert_eq!(six.checked_ln_with_context(context).unwrap().to_string(), "0.693147");
}

#[test]
fn log10_keeps_the_nearest_digits_under_directed_modes() {
    for mode in [RoundingMode::Floor, RoundingMode::Ceil, RoundingMode::Down, RoundingMode::Up] {
        let context = MathContext { rounding: mode, guard_digits: 12 };
        assert_eq!(fixed::<4>("0.5000").checked_log10_with_context(context).unwrap().to_string(), "-0.3010");
        assert_eq!(fixed::<4>("10.0000").checked_log10_with_context(context).unwrap().to_string(), "1.0000");
        assert_eq!(fixed::<4>("3.0000").checked_log10_with_context(context).unwrap().to_string(), "0.4771");
    }
}

#[test]
fn rescaling_a_negated_value_negates_or_swaps_floor_and_ceil() {
    for text in ["1.2350", "1.2250", "0.0049", "7.9999", "2.5000"] {
        let value = fixed::<4>(text);
        let negated = -value.clone();
        for mode in [RoundingMode::HalfEven, RoundingMode::HalfUp, RoundingMode::Down, RoundingMode::Up] {
            assert_eq!(
                negated.rescale_with_context::<2>(context(mode)),
                -value.rescale_with_context::<2>(context(mode))
            );
        }
        assert_eq!(
            negated.rescale_with_context::<2>(context(RoundingMode::Floor)),
            -value.rescale_with_context::<2>(context(RoundingMode::Ceil))
        );
        assert_eq!(
            negated.rescale_with_context::<2>(context(RoundingMode::Ceil)),
            -value.rescale_with_context::<2>(context(RoundingMode::Floor))
        );
    }
    assert_eq!(fixed::<4>("-1.2350").rescale_with_context::<2>(context(RoundingMode::Floor)).to_string(), "-1.24");
    assert_eq!(fixed::<4>("1.2350").rescale_with_context::<2>(context(RoundingMode::Ceil)).to_string(), "1.24");
}

#[test]
fn product_of_a_negated_factor_is_the_negated_product() {
    for (a, b) in [("1.25", "0.05"), ("3.33", "3.33"), ("0.15", "0.10"), ("-2.50", "1.01")] {
        let a = fixed::<2>(a);
        let b = fixed::<2>(b);
        assert_eq!(-a.clone() * b.clone(), -(a.clone() * b.clone()));
        assert_eq!(a.clone() * -b.clone(), -(a * b));
    }
    assert_eq!((fixed::<2>("-1.25") * fixed::<2>("0.05")).to_string(), "-0.06");
}

#[test]
fn constants_are_available_beyond_their_decimals() {
    let one = fixed::<100>("1");
    assert!(one.sin().to_string().starts_with("0.8414709848078965066525023216302989996225"));
    assert!(one.cos().to_string().starts_with("0.5403023058681397174009366074429766037323"));
    assert!(one.checked_sin().is_some());
    let two = fixed::<100>("2");
    assert!(two.log10().to_string().starts_with("0.3010299956639811952137388947244930267681"));
}

#[test]
fn exp_of_ln_drifts_where_the_value_is_large() {
    // ln x is rounded to six places, and exp multiplies that error by x.
    let x = fixed::<6>("1000000");
    let back = x.ln().exp();
    assert!((back - x).abs() > fixed::<6>("0.000016"));
}

#[test]
fn guard_digits_matter_for_large_exponentials() {
    // Nine halvings and squarings multiply the working-scale error of the exponential.
    let x = fixed::<6>("40");
    let lo = MathContext { rounding: RoundingMode::HalfEven, guard_digits: 4 };
    let hi = MathContext { rounding: RoundingMode::HalfEven, guard_digits: 16 };
    let a = x.checked_exp_with_context(lo).unwrap();
    let b = x.checked_exp_with_context(hi).unwrap();
    assert!((a - b).abs() > fixed::<6>("0.000001"));
}
