use metrology::bits::{at_most, finite, less, nan, INFINITY, NAN, NEG_INFINITY, ZERO};

fn grid() -> Vec<f64> {
    vec![
        f64::NEG_INFINITY,
        -1.0e300,
        -450.0,
        -2.5,
        -1.0,
        -f64::MIN_POSITIVE,
        -5e-324,
        -0.0,
        0.0,
        5e-324,
        f64::MIN_POSITIVE,
        1e-4,
        1e-2,
        0.5,
        1.0,
        2.0,
        10.0,
        270.0,
        1e12,
        f64::MAX,
        f64::INFINITY,
        f64::NAN,
        -f64::NAN,
    ]
}

#[test]
fn less_agrees_with_the_numbers() {
    for a in grid() {
        for b in grid() {
            assert_eq!(less(a.to_bits(), b.to_bits()), a < b, "{} < {}", a, b);
        }
    }
}

#[test]
fn at_most_agrees_with_the_numbers() {
    for a in grid() {
        for b in grid() {
            assert_eq!(at_most(a.to_bits(), b.to_bits()), a <= b, "{} <= {}", a, b);
        }
    }
}

#[test]
fn finite_and_nan_agree_with_the_numbers() {
    for a in grid() {
        assert_eq!(finite(a.to_bits()), a.is_finite(), "{}", a);
        assert_eq!(nan(a.to_bits()), a.is_nan(), "{}", a);
    }
}

#[test]
fn the_two_zeros_tie() {
    let plus = 0.0f64.to_bits();
    let minus = (-0.0f64).to_bits();
    assert_ne!(plus, minus);
    assert!(!less(plus, minus));
    assert!(!less(minus, plus));
    assert!(at_most(plus, minus));
    assert!(at_most(minus, plus));
}

#[test]
fn nan_is_beside_the_order() {
    let one = 1.0f64.to_bits();
    assert!(!less(NAN, one));
    assert!(!less(one, NAN));
    assert!(!at_most(NAN, NAN));
    assert!(!less(NAN, NAN));
}

#[test]
fn constants_are_the_patterns_of_their_numbers() {
    assert_eq!(NAN, f64::NAN.to_bits());
    assert_eq!(INFINITY, f64::INFINITY.to_bits());
    assert_eq!(NEG_INFINITY, f64::NEG_INFINITY.to_bits());
    assert_eq!(ZERO, 0.0f64.to_bits());
}
