use average::{Estimate, Variance};
use metrology::parsing::{get_data_lines, DataLine};
use metrology::scores::{the_everything, Scores};
use metrology::stats::{r6, r6_moments, the_area, the_midline, Moments, Sampled};
use metrology::titles::{Cell, Entitled};

fn decimal(text: &[u8]) -> u64 {
    std::str::from_utf8(text).unwrap().parse::<f64>().unwrap().to_bits()
}

fn round(value: u64, scale: u64) -> u64 {
    ((f64::from_bits(value) * scale as f64).round() / scale as f64).to_bits()
}

fn reduce(samples: &Vec<u64>) -> Moments {
    let mut v = Variance::new();
    for s in samples {
        v.add(f64::from_bits(*s));
    }
    Moments { mean: v.mean().to_bits(), sem: v.error().to_bits() }
}

fn stored(samples: &Vec<u64>) -> Moments {
    r6_moments(reduce(samples), &round)
}

fn show(cell: Cell) -> String {
    match cell {
        Cell::Count(n) => format!("{}", n),
        Cell::Real(bits) => format!("{}", f64::from_bits(bits)),
    }
}

fn scores_of(id: u32, text: &str) -> Scores {
    let lines = get_data_lines(text.as_bytes(), decimal).unwrap();
    the_everything(id, &lines, reduce, round)
}

fn number(bits: u64) -> f64 {
    f64::from_bits(bits)
}

#[test]
fn six_records_at_constant_speed() {
    let text = "0 10 2.0 5 1 1\n\
                100 11 2.0 6 2 1\n\
                200 12 2.0 7 3 1\n\
                300 13 2.0 8 4 1\n\
                400 14 2.0 9 5 1\n\
                500 15 2.0 10 6 1\n";
    let s = scores_of(3, text);
    assert_eq!(s.id, 3);
    assert_eq!(number(s.t0), 0.0);
    assert_eq!(number(s.t1), 500.0);
    assert_eq!(s.area.n, 6);
    assert_eq!(number(s.area.mean), 12.5);
    assert_eq!(number(s.area.sem), 0.763763);
    assert_eq!(s.midline.n, 6);
    assert_eq!(number(s.midline.mean), 7.5);
    assert!(s.initial_speed.is_none());
    assert!(s.calm_speed.is_none());
    assert!(s.aroused_speed.is_none());
    assert_eq!(s.x.stats.n, 6);
    assert_eq!(number(s.x.first), 1.0);
    assert_eq!(number(s.x.last), 6.0);
    assert_eq!(number(s.x.bound0), 1.0);
    assert_eq!(number(s.x.bound1), 6.0);
    assert_eq!(number(s.x.stats.mean), 3.5);
    assert_eq!(s.y.stats.n, 6);
    assert_eq!(number(s.y.stats.mean), 1.0);
    assert_eq!(number(s.y.stats.sem), 0.0);
}

#[test]
fn six_records_of_which_some_are_not_finite() {
    let text = "0 10 2.0 5 1 1\n\
                100 NaN 2.0 6 2 1\n\
                200 12 2.0 Infinity 3 1\n\
                300 13 2.0 -Infinity 4 1\n\
                400 14 2.0 9 5 1\n\
                500 15 2.0 10 6 1\n";
    let s = scores_of(4, text);
    assert_eq!(s.area.n, 5);
    assert_eq!(number(s.area.mean), 12.8);
    assert_eq!(s.midline.n, 4);
    assert_eq!(number(s.midline.mean), 7.5);
}

#[test]
fn calm_window_at_constant_speed() {
    let text = "0 10 2.0 5 1 1\n\
                270 10 2.0 5 1 1\n\
                275 10 2.0 5 1 1\n\
                280 10 2.0 5 1 1\n\
                285 10 2.0 5 1 1\n\
                290 10 2.0 5 1 1\n\
                500 10 2.0 5 1 1\n";
    let s = scores_of(5, text);
    assert_eq!(s.area.n, 7);
    assert!(s.initial_speed.is_none());
    assert!(s.aroused_speed.is_none());
    let calm = s.calm_speed.unwrap();
    assert_eq!(calm.stats.n, 5);
    assert_eq!(number(calm.stats.mean), 2.0);
    assert_eq!(number(calm.stats.sem), 0.0);
    assert_eq!(number(calm.max), 2.0);
}

#[test]
fn all_three_windows() {
    let mut text = String::new();
    let mut t = 0;
    while t <= 500 {
        let speed = if t < 100 { 1.0 } else if t < 400 { 2.0 } else { 3.5 };
        text.push_str(&format!("{} 10 {} 5 {} {}\n", t, speed, t, -t));
        t += 2;
    }
    let s = scores_of(6, &text);
    let initial = s.initial_speed.unwrap();
    assert_eq!(initial.stats.n, 6);
    assert_eq!(number(initial.stats.mean), 1.0);
    assert_eq!(number(initial.max), 1.0);
    let calm = s.calm_speed.unwrap();
    assert_eq!(calm.stats.n, 11);
    assert_eq!(number(calm.max), 2.0);
    let aroused = s.aroused_speed.unwrap();
    assert_eq!(aroused.stats.n, 6);
    assert_eq!(number(aroused.stats.mean), 3.5);
    assert_eq!(number(aroused.max), 3.5);
    assert_eq!(number(s.x.bound1), 500.0);
    assert_eq!(number(s.y.bound0), -500.0);
    assert_eq!(number(s.y.first), 0.0);
    assert_eq!(number(s.y.last), -500.0);
}

#[test]
fn times_are_the_first_and_the_last_finite_ones() {
    let text = "NaN 1 1 1 1 1\n\
                Infinity 1 1 1 1 1\n\
                7 1 1 1 1 1\n\
                NaN 1 1 1 1 1\n\
                9 1 1 1 1 1\n\
                -Infinity 1 1 1 1 1\n";
    let s = scores_of(8, text);
    assert_eq!(s.id, 8);
    assert_eq!(number(s.t0), 7.0);
    assert_eq!(number(s.t1), 9.0);
    assert_eq!(s.area.n, 6);
}

#[test]
fn one_finite_time_is_both_ends() {
    let s = scores_of(8, "NaN 1 1 1 1 1\n7 1 1 1 1 1\nNaN 1 1 1 1 1\n");
    assert_eq!(number(s.t0), 7.0);
    assert_eq!(number(s.t1), 7.0);
}

#[test]
fn no_finite_time_yields_the_zero_scores() {
    let s = scores_of(9, "NaN 1 1 1 1 1\nInfinity 2 2 2 2 2\n");
    assert_eq!(s.id, 0);
    assert!(number(s.t0).is_nan());
    assert!(number(s.t1).is_nan());
    assert_eq!(s.area, Sampled::zero());
    assert_eq!(s.x.stats, Sampled::zero());
    assert_eq!(s.row(show).unwrap(), Scores::zero().row(show).unwrap());
}

#[test]
fn no_records_yield_the_zero_scores() {
    let lines: Vec<DataLine> = Vec::new();
    let s = the_everything(9, &lines, reduce, round);
    assert_eq!(s.id, 0);
    assert_eq!(s.row(show).unwrap(), Scores::zero().row(show).unwrap());
}

#[test]
fn the_reducer_is_not_asked_where_nothing_is_scored() {
    let lines = get_data_lines(b"NaN 1 1 1 1 1\n", decimal).unwrap();
    let s = the_everything(
        1,
        &lines,
        |_: &Vec<u64>| -> Moments { panic!("asked") },
        |_: u64, _: u64| -> u64 { panic!("asked") },
    );
    assert_eq!(s.id, 0);
}

#[test]
fn one_record_has_a_mean_and_no_error() {
    let s = scores_of(2, "1 3 1 4 1 1\n");
    assert_eq!(s.area.n, 1);
    assert_eq!(number(s.area.mean), 3.0);
    assert!(number(s.area.sem).is_nan());
    assert_eq!(s.midline.n, 1);
    assert_eq!(number(s.midline.mean), 4.0);
    assert!(number(s.midline.sem).is_nan());
}

#[test]
fn a_channel_without_finite_values_has_no_mean() {
    let s = scores_of(2, "1 NaN 1 4 NaN 1\n2 NaN 1 5 NaN 1\n");
    assert_eq!(s.area.n, 0);
    assert!(number(s.area.mean).is_nan());
    assert!(number(s.area.sem).is_nan());
    assert_eq!(s.x.stats.n, 0);
    assert!(number(s.x.first).is_nan());
    assert_eq!(s.midline.n, 2);
    assert_eq!(number(s.midline.mean), 4.5);
    assert_eq!(number(s.midline.sem), 0.5);
}

#[test]
fn mean_and_error_of_one_to_five() {
    let lines = get_data_lines(b"1 1 0 0 0 0\n2 2 0 0 0 0\n3 3 0 0 0 0\n4 4 0 0 0 0\n5 5 0 0 0 0\n", decimal)
        .unwrap();
    let areas = the_area(&lines);
    assert_eq!(areas.len(), 5);
    let s = Sampled::of(areas.len() as u64, stored(&areas));
    assert_eq!(s.n, 5);
    assert_eq!(number(s.mean), 3.0);
    assert_eq!(number(s.sem), 0.707107);
    let midlines = the_midline(&lines);
    let m = Sampled::of(midlines.len() as u64, stored(&midlines));
    assert_eq!(number(m.mean), 0.0);
    assert_eq!(number(m.sem), 0.0);
}

#[test]
fn samples_are_the_finite_values_in_file_order() {
    let lines = get_data_lines(b"1 5 0 NaN 0 0\n2 NaN 0 8 0 0\n3 3 0 Infinity 0 0\n4 -Infinity 0 2 0 0\n", decimal)
        .unwrap();
    let areas: Vec<f64> = the_area(&lines).iter().map(|b| f64::from_bits(*b)).collect();
    assert_eq!(areas, vec![5.0, 3.0]);
    let midlines: Vec<f64> = the_midline(&lines).iter().map(|b| f64::from_bits(*b)).collect();
    assert_eq!(midlines, vec![8.0, 2.0]);
}

#[test]
fn rows_and_titles_of_a_recording_match() {
    let text = "0 10 2.0 5 1 1\n\
                270 10 2.0 5 1 1\n\
                275 10 2.0 5 1 1\n\
                280 10 2.0 5 1 1\n\
                285 10 2.0 5 1 1\n\
                290 10 2.0 5 1 1\n\
                500 10 2.0 5 1 1\n";
    let s = scores_of(11, text);
    assert_eq!(
        s.row(show).unwrap(),
        "11 0 500 7 10 0 7 5 0 0 NaN NaN NaN 5 2 0 2 0 NaN NaN NaN \
         1 1 1 1 7 1 0 1 1 1 1 7 1 0"
    );
    assert_eq!(s.row(show).unwrap().split_whitespace().count(), s.title().split(' ').count());
}

#[test]
fn rounding_is_asked_only_for_values_with_a_scale() {
    let never = |_: u64, _: u64| -> u64 { panic!("asked") };
    assert_eq!(r6(1e13f64.to_bits(), &never), 1e13f64.to_bits());
    assert_eq!(r6(0.0000123456789f64.to_bits(), &never), 0.0000123456789f64.to_bits());
    assert_eq!(r6(0.0f64.to_bits(), &never), 0.0f64.to_bits());
    assert_eq!(r6(f64::NAN.to_bits(), &never), f64::NAN.to_bits());
    assert_eq!(r6(f64::INFINITY.to_bits(), &never), f64::INFINITY.to_bits());
}

#[test]
fn rounding_is_asked_with_the_scale_of_the_value() {
    let scale_only = |_: u64, scale: u64| -> u64 { scale };
    assert_eq!(r6(0.0123456789f64.to_bits(), &scale_only), 1_000_000);
    assert_eq!(r6((-5.5f64).to_bits(), &scale_only), 1_000_000);
    assert_eq!(r6(0.00123456789f64.to_bits(), &scale_only), 100_000_000);
}

#[test]
fn rounding_of_values() {
    assert_eq!(number(r6(0.0123456789f64.to_bits(), &round)), 0.012346);
    assert_eq!(number(r6(0.00123456789f64.to_bits(), &round)), 0.00123457);
    assert_eq!(number(r6(0.0000123456789f64.to_bits(), &round)), 0.0000123456789);
    assert_eq!(number(r6(1e13f64.to_bits(), &round)), 1e13);
    assert_eq!(number(r6(2.0f64.to_bits(), &round)), 2.0);
}

#[test]
fn scores_are_stored_rounded() {
    let s = scores_of(1, "1 1 0 0.001 0 0\n2 1 0 0.002 0 0\n3 2 0 0.002 0 0\n");
    assert_eq!(s.area.n, 3);
    assert_eq!(number(s.area.mean), 1.333333);
    assert_eq!(number(s.area.sem), 0.333333);
    assert_eq!(number(s.midline.mean), 0.00166667);
    assert_eq!(number(s.midline.sem), 0.00033333);
}
