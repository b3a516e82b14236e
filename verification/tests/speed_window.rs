use metrology::parsing::DataLine;
use metrology::speed::{the_speed_in, Speed, Window};
use metrology::stats::Moments;

fn line(time: f64, speed: f64) -> DataLine {
    DataLine {
        time: time.to_bits(),
        area: 1.0f64.to_bits(),
        speed: speed.to_bits(),
        midline: 1.0f64.to_bits(),
        x: 0.0f64.to_bits(),
        y: 0.0f64.to_bits(),
    }
}

fn recording(entries: &[(f64, f64)]) -> Vec<DataLine> {
    entries.iter().map(|(t, s)| line(*t, *s)).collect()
}

fn window(t0: f64, t1: f64, input: &Vec<DataLine>) -> Option<(Vec<f64>, f64)> {
    the_speed_in(t0.to_bits(), t1.to_bits(), input).map(|w| {
        (
            w.samples.iter().map(|b| f64::from_bits(*b)).collect(),
            f64::from_bits(w.max),
        )
    })
}

#[test]
fn window_with_records_on_both_sides() {
    let input = recording(&[
        (5.0, 9.0),
        (10.0, 1.0),
        (12.0, 2.0),
        (14.0, 3.0),
        (16.0, 4.0),
        (18.0, 5.0),
        (20.0, 6.0),
        (25.0, 9.0),
        (30.0, 9.0),
    ]);
    let (samples, max) = window(10.0, 20.0, &input).unwrap();
    assert_eq!(samples, vec![1.0, 2.0, 3.0, 4.0, 5.0, 6.0]);
    assert_eq!(max, 4.0);
}

#[test]
fn window_that_nothing_precedes_yields_nothing() {
    let input = recording(&[
        (10.0, 1.0),
        (12.0, 2.0),
        (14.0, 3.0),
        (16.0, 4.0),
        (18.0, 5.0),
        (20.0, 6.0),
        (25.0, 9.0),
    ]);
    assert!(window(10.0, 20.0, &input).is_none());
}

#[test]
fn window_over_times_five_fifteen_twenty_five() {
    let input = recording(&[
        (5.0, 1.0),
        (15.0, 1.0),
        (25.0, 1.0),
        (35.0, 1.0),
        (45.0, 1.0),
        (55.0, 1.0),
        (65.0, 1.0),
    ]);
    assert!(window(10.0, 20.0, &input).is_none());
    assert!(window(5.0, 60.0, &input).is_none());
}

#[test]
fn window_beyond_the_last_record_yields_nothing() {
    let input = recording(&[
        (0.0, 1.0),
        (100.0, 1.0),
        (200.0, 1.0),
        (300.0, 1.0),
    ]);
    assert!(window(440.0, 450.0, &input).is_none());
}

#[test]
fn window_that_nothing_follows_yields_nothing() {
    let input = recording(&[
        (5.0, 9.0),
        (10.0, 1.0),
        (12.0, 2.0),
        (14.0, 3.0),
        (16.0, 4.0),
        (18.0, 5.0),
        (20.0, 6.0),
    ]);
    assert!(window(10.0, 20.0, &input).is_none());
}

#[test]
fn window_with_four_samples_yields_nothing() {
    let input = recording(&[
        (5.0, 9.0),
        (10.0, 1.0),
        (12.0, 2.0),
        (14.0, 3.0),
        (16.0, 4.0),
        (25.0, 9.0),
    ]);
    assert!(window(10.0, 20.0, &input).is_none());
}

#[test]
fn window_passes_over_speeds_that_are_not_finite() {
    let input = recording(&[
        (5.0, 9.0),
        (10.0, 1.0),
        (11.0, f64::NAN),
        (12.0, 2.0),
        (13.0, f64::INFINITY),
        (14.0, 3.0),
        (16.0, 4.0),
        (17.0, f64::NEG_INFINITY),
        (18.0, 5.0),
        (25.0, 9.0),
    ]);
    let (samples, max) = window(10.0, 20.0, &input).unwrap();
    assert_eq!(samples, vec![1.0, 2.0, 3.0, 4.0, 5.0]);
    assert_eq!(max, 3.0);
}

#[test]
fn window_counts_only_finite_speeds_towards_five() {
    let input = recording(&[
        (5.0, 9.0),
        (10.0, 1.0),
        (11.0, f64::NAN),
        (12.0, 2.0),
        (14.0, 3.0),
        (16.0, 4.0),
        (25.0, 9.0),
    ]);
    assert!(window(10.0, 20.0, &input).is_none());
}

#[test]
fn window_maximum_is_not_set_by_a_spike() {
    let input = recording(&[
        (0.0, 0.0),
        (270.0, 2.0),
        (272.0, 2.0),
        (274.0, 500.0),
        (276.0, 2.0),
        (278.0, 2.0),
        (280.0, 2.0),
        (300.0, 0.0),
    ]);
    let (samples, max) = window(270.0, 290.0, &input).unwrap();
    assert_eq!(samples.len(), 6);
    assert_eq!(max, 2.0);
}

#[test]
fn window_maximum_is_the_largest_median_of_five() {
    let input = recording(&[
        (0.0, 0.0),
        (10.0, 1.0),
        (11.0, 9.0),
        (12.0, 8.0),
        (13.0, 7.0),
        (14.0, 2.0),
        (15.0, 1.0),
        (16.0, 1.0),
        (17.0, 1.0),
        (30.0, 0.0),
    ]);
    let (_, max) = window(10.0, 20.0, &input).unwrap();
    assert_eq!(max, 7.0);
}

#[test]
fn window_maximum_of_negative_speeds_is_negative() {
    let input = recording(&[
        (0.0, 0.0),
        (10.0, -1.0),
        (11.0, -2.0),
        (12.0, -3.0),
        (13.0, -4.0),
        (14.0, -5.0),
        (15.0, -6.0),
        (30.0, 0.0),
    ]);
    let (samples, max) = window(10.0, 20.0, &input).unwrap();
    assert_eq!(samples, vec![-1.0, -2.0, -3.0, -4.0, -5.0, -6.0]);
    assert_eq!(max, -3.0);
}

#[test]
fn window_maximum_of_five_equal_negative_speeds() {
    let input = recording(&[
        (5.0, -1.0),
        (11.0, -1.0),
        (12.0, -1.0),
        (13.0, -1.0),
        (14.0, -1.0),
        (15.0, -1.0),
        (25.0, -1.0),
    ]);
    let (samples, max) = window(10.0, 20.0, &input).unwrap();
    assert_eq!(samples, vec![-1.0, -1.0, -1.0, -1.0, -1.0]);
    assert_eq!(max, -1.0);
}

#[test]
fn window_maximum_of_zero_speeds_is_zero() {
    let input = recording(&[
        (5.0, 1.0),
        (11.0, 0.0),
        (12.0, 0.0),
        (13.0, 0.0),
        (14.0, 0.0),
        (15.0, 0.0),
        (25.0, 1.0),
    ]);
    let (_, max) = window(10.0, 20.0, &input).unwrap();
    assert_eq!(max, 0.0);
}

#[test]
fn window_maximum_is_set_at_the_fifth_sample() {
    let input = recording(&[
        (5.0, 1.0),
        (11.0, 900.0),
        (12.0, 800.0),
        (13.0, 0.5),
        (14.0, 0.25),
        (15.0, 0.125),
        (16.0, 0.0625),
        (25.0, 1.0),
    ]);
    let (_, max) = window(10.0, 20.0, &input).unwrap();
    assert_eq!(max, 0.5);
}

#[test]
fn window_ends_are_within_it() {
    let input = recording(&[
        (9.999, 7.0),
        (10.0, 1.0),
        (10.0, 1.0),
        (15.0, 1.0),
        (20.0, 1.0),
        (20.0, 1.0),
        (20.001, 7.0),
    ]);
    let (samples, _) = window(10.0, 20.0, &input).unwrap();
    assert_eq!(samples.len(), 5);
}

#[test]
fn window_stops_at_the_first_record_after_it() {
    let input = recording(&[
        (5.0, 9.0),
        (10.0, 1.0),
        (12.0, 2.0),
        (14.0, 3.0),
        (25.0, 9.0),
        (16.0, 4.0),
        (18.0, 5.0),
        (26.0, 9.0),
    ]);
    assert!(window(10.0, 20.0, &input).is_none());
}

#[test]
fn window_passes_over_records_without_a_time() {
    let input = recording(&[
        (5.0, 9.0),
        (f64::NAN, 100.0),
        (10.0, 1.0),
        (12.0, 2.0),
        (14.0, 3.0),
        (f64::NAN, 100.0),
        (16.0, 4.0),
        (18.0, 5.0),
        (25.0, 9.0),
    ]);
    let (samples, max) = window(10.0, 20.0, &input).unwrap();
    assert_eq!(samples, vec![1.0, 2.0, 3.0, 4.0, 5.0]);
    assert_eq!(max, 3.0);
}

#[test]
fn window_of_an_empty_recording_yields_nothing() {
    let input: Vec<DataLine> = Vec::new();
    assert!(window(10.0, 20.0, &input).is_none());
}

#[test]
fn speed_takes_its_count_from_the_window() {
    let w = Window {
        samples: vec![1.0f64.to_bits(), 2.0f64.to_bits(), 3.0f64.to_bits()],
        max: 2.0f64.to_bits(),
    };
    let s = Speed::of(&w, Moments { mean: 2.0f64.to_bits(), sem: 0.57735f64.to_bits() });
    assert_eq!(s.stats.n, 3);
    assert_eq!(f64::from_bits(s.stats.mean), 2.0);
    assert_eq!(f64::from_bits(s.stats.sem), 0.57735);
    assert_eq!(f64::from_bits(s.max), 2.0);
}

#[test]
fn the_zero_speed_is_empty() {
    let z = Speed::zero();
    assert_eq!(z.stats.n, 0);
    assert!(f64::from_bits(z.stats.mean).is_nan());
    assert!(f64::from_bits(z.stats.sem).is_nan());
    assert!(f64::from_bits(z.max).is_nan());
}

#[test]
fn the_snapshot_of_a_speed_is_that_of_its_sample() {
    let s = Speed {
        stats: metrology::stats::Sampled { mean: 2.0f64.to_bits(), sem: 0.5f64.to_bits(), n: 4 },
        max: 3.0f64.to_bits(),
    };
    let by_reference: metrology::stats::Sampled = (&s).into();
    assert_eq!(by_reference, s.stats);
    let by_value: metrology::stats::Sampled = s.into();
    assert_eq!(by_value, s.stats);
}
