use metrology::stats::{r6_scale, Moments, Sampled, COARSE_FLOOR, FINE_FLOOR, ROUNDING_CEILING};

fn r6(value: f64) -> f64 {
    match r6_scale(value.to_bits()) {
        Some(scale) => (value * scale as f64).round() / scale as f64,
        None => value,
    }
}

#[test]
fn thresholds_are_the_patterns_of_their_numbers() {
    assert_eq!(ROUNDING_CEILING, 1e12f64.to_bits());
    assert_eq!(COARSE_FLOOR, 1e-2f64.to_bits());
    assert_eq!(FINE_FLOOR, 1e-4f64.to_bits());
}

#[test]
fn hundredths_and_more_are_stored_in_millionths() {
    assert_eq!(r6_scale(0.0123456789f64.to_bits()), Some(1_000_000));
    assert_eq!(r6(0.0123456789), 0.012346);
    assert_eq!(r6(-0.0123456789), -0.012346);
    assert_eq!(r6(123.4567891), 123.456789);
    assert_eq!(r6_scale(0.01f64.to_bits()), Some(1_000_000));
    assert_eq!(r6_scale(999_999_999_999.0f64.to_bits()), Some(1_000_000));
}

#[test]
fn ten_thousandths_are_stored_in_hundred_millionths() {
    assert_eq!(r6_scale(0.00123456789f64.to_bits()), Some(100_000_000));
    assert_eq!(r6(0.00123456789), 0.00123457);
    assert_eq!(r6_scale(0.0001f64.to_bits()), Some(100_000_000));
    assert_eq!(r6_scale((-0.0099f64).to_bits()), Some(100_000_000));
}

#[test]
fn smaller_magnitudes_are_stored_as_they_are() {
    assert_eq!(r6_scale(0.0000123456789f64.to_bits()), None);
    assert_eq!(r6(0.0000123456789), 0.0000123456789);
    assert_eq!(r6_scale(0.0f64.to_bits()), None);
    assert_eq!(r6_scale((-0.0f64).to_bits()), None);
}

#[test]
fn large_magnitudes_are_stored_as_they_are() {
    assert_eq!(r6_scale(1e13f64.to_bits()), None);
    assert_eq!(r6(1e13), 1e13);
    assert_eq!(r6_scale(1e12f64.to_bits()), None);
    assert_eq!(r6_scale(f64::INFINITY.to_bits()), None);
    assert_eq!(r6_scale(f64::NEG_INFINITY.to_bits()), None);
}

#[test]
fn nan_is_stored_as_it_is() {
    assert_eq!(r6_scale(f64::NAN.to_bits()), None);
    assert!(r6(f64::NAN).is_nan());
}

#[test]
fn an_empty_sample_has_no_mean_and_no_error() {
    let s = Sampled::of(0, Moments { mean: 0.0f64.to_bits(), sem: 0.0f64.to_bits() });
    assert_eq!(s.n, 0);
    assert!(f64::from_bits(s.mean).is_nan());
    assert!(f64::from_bits(s.sem).is_nan());
    assert_eq!(s, Sampled::zero());
}

#[test]
fn a_single_value_has_a_mean_and_no_error() {
    let s = Sampled::of(1, Moments { mean: 4.5f64.to_bits(), sem: 0.0f64.to_bits() });
    assert_eq!(s.n, 1);
    assert_eq!(f64::from_bits(s.mean), 4.5);
    assert!(f64::from_bits(s.sem).is_nan());
}

#[test]
fn two_values_have_a_mean_and_an_error() {
    let s = Sampled::of(2, Moments { mean: 4.5f64.to_bits(), sem: 0.5f64.to_bits() });
    assert_eq!(s.n, 2);
    assert_eq!(f64::from_bits(s.mean), 4.5);
    assert_eq!(f64::from_bits(s.sem), 0.5);
}

#[test]
fn the_zero_snapshot_is_empty() {
    let z = Sampled::zero();
    assert_eq!(z.n, 0);
    assert!(f64::from_bits(z.mean).is_nan());
    assert!(f64::from_bits(z.sem).is_nan());
}
