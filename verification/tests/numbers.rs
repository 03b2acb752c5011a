use nexergy::number::{
    absolute, bits_are_finite, bits_are_nan, bits_are_negative, bits_are_positive,
    deviation_or_one, INFINITY, NAN, NEGATIVE_INFINITY, ONE, ZERO,
};

fn samples() -> Vec<f64> {
    vec![
        0.0,
        -0.0,
        1.0,
        -1.0,
        0.1,
        -2.5e-3,
        5e-324,
        -5e-324,
        f64::MIN_POSITIVE,
        f64::MAX,
        f64::MIN,
        f64::EPSILON,
        f64::INFINITY,
        f64::NEG_INFINITY,
        f64::NAN,
        -f64::NAN,
        f64::from_bits(0x7ff0_0000_0000_0001),
        f64::from_bits(0xfff8_0000_dead_beef),
        1e308,
        -1e-308,
    ]
}

#[test]
fn constants_are_the_values_they_are_named_after() {
    assert_eq!(ZERO, 0.0f64.to_bits());
    assert_eq!(ONE, 1.0f64.to_bits());
    assert_eq!(INFINITY, f64::INFINITY.to_bits());
    assert_eq!(NEGATIVE_INFINITY, f64::NEG_INFINITY.to_bits());
    assert!(f64::from_bits(NAN).is_nan());
}

#[test]
fn finite_is_decided_as_the_hardware_decides_it() {
    for x in samples() {
        assert_eq!(bits_are_finite(x.to_bits()), x.is_finite(), "{x:?}");
    }
}

#[test]
fn nan_is_decided_as_the_hardware_decides_it() {
    for x in samples() {
        assert_eq!(bits_are_nan(x.to_bits()), x.is_nan(), "{x:?}");
    }
}

#[test]
fn positive_is_decided_as_the_hardware_decides_it() {
    for x in samples() {
        assert_eq!(bits_are_positive(x.to_bits()), x > 0.0, "{x:?}");
    }
}

#[test]
fn absolute_clears_the_sign_only() {
    for x in samples() {
        assert_eq!(absolute(x.to_bits()), x.abs().to_bits(), "{x:?}");
    }
}

#[test]
fn a_deviation_that_is_not_positive_becomes_one() {
    for x in samples() {
        let expected = if x > 0.0 { x } else { 1.0 };
        assert_eq!(deviation_or_one(x.to_bits()), expected.to_bits(), "{x:?}");
    }
    assert_eq!(f64::from_bits(deviation_or_one(0.0f64.to_bits())), 1.0);
    assert_eq!(f64::from_bits(deviation_or_one(2.5f64.to_bits())), 2.5);
}

#[test]
fn negative_is_decided_as_the_hardware_decides_it() {
    for x in samples() {
        assert_eq!(bits_are_negative(x.to_bits()), x < 0.0, "{x:?}");
    }
    assert!(!bits_are_negative((-0.0f64).to_bits()));
    assert!(bits_are_negative((-5e-324f64).to_bits()));
    assert!(bits_are_negative(f64::NEG_INFINITY.to_bits()));
    assert!(!bits_are_negative((-f64::NAN).to_bits()));
}
