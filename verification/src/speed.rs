//! The speed of a subject within a time window.
//!
//! A window yields a result only where the recording is seen to run on
//! both sides of it: some record lies before its start, and some record
//! lies after its end. Within the window the finite speeds are the sample,
//! and the largest median of five consecutive samples is their maximum,
//! so that a lone spike cannot set it.

use vstd::prelude::*;
use crate::bits::{
    at_most, finite, is_finite, is_nan, le, lemma_order, less, lt, rank, NAN,
};
use crate::parsing::DataLine;
use crate::stats::{Moments, Sampled, sampled_of};

verus! {

/// A sample and its spike-free maximum, as found in one window.
#[derive(Debug)]
pub struct Window {
    /// The finite speeds recorded within the window, in file order.
    pub samples: Vec<u64>,
    /// The largest median of five consecutive samples.
    pub max: u64,
}

/// The estimate of a speed: the snapshot of its sample and its maximum.
#[derive(Clone, Copy, Debug, PartialEq, Eq, Structural)]
pub struct Speed {
    pub stats: Sampled,
    pub max: u64,
}

impl View for Window {
    type V = (Seq<u64>, u64);

    open spec fn view(&self) -> (Seq<u64>, u64) {
        (self.samples@, self.max)
    }
}

/// One if the condition holds, zero if not.
pub open spec fn unit(c: bool) -> int {
    if c {
        1
    } else {
        0
    }
}

/// How many of the five values are numerically at most `m`.
pub open spec fn count_at_most(w: Seq<u64>, m: u64) -> int {
    unit(le(w[0], m)) + unit(le(w[1], m)) + unit(le(w[2], m)) + unit(le(w[3], m)) + unit(
        le(w[4], m),
    )
}

/// How many of the five values are numerically at least `m`.
pub open spec fn count_at_least(w: Seq<u64>, m: u64) -> int {
    unit(le(m, w[0])) + unit(le(m, w[1])) + unit(le(m, w[2])) + unit(le(m, w[3])) + unit(
        le(m, w[4]),
    )
}

/// `m` is a median of the five values `w`: it is one of them, at least
/// three of them are at most `m`, and at least three are at least `m`.
pub open spec fn is_median(w: Seq<u64>, m: u64) -> bool {
    &&& w.len() == 5
    &&& (m == w[0] || m == w[1] || m == w[2] || m == w[3] || m == w[4])
    &&& count_at_most(w, m) >= 3
    &&& count_at_least(w, m) >= 3
}

/// None of the values is a NaN.
pub open spec fn all_numbers(w: Seq<u64>) -> bool {
    forall|i: int| 0 <= i < w.len() ==> !is_nan(#[trigger] w[i])
}

/// Every value is finite.
pub open spec fn all_finite(w: Seq<u64>) -> bool {
    forall|i: int| 0 <= i < w.len() ==> is_finite(#[trigger] w[i])
}

/// The smaller of two values, and the first where neither is smaller.
pub open spec fn lower(a: u64, b: u64) -> u64 {
    if lt(b, a) {
        b
    } else {
        a
    }
}

/// The larger of two values, and the second where neither is smaller.
pub open spec fn upper(a: u64, b: u64) -> u64 {
    if lt(b, a) {
        a
    } else {
        b
    }
}

/// `e` where it lies between `a` and `b`, else the nearer of the two.
pub open spec fn between(e: u64, a: u64, b: u64) -> u64 {
    if le(e, a) {
        a
    } else if le(b, e) {
        b
    } else {
        e
    }
}

/// The median of five values. Of the first four, the two middle ones are
/// the larger of the two smaller and the smaller of the two larger of
/// either pair; the median is the fifth value brought between those two.
pub open spec fn median_of(w: Seq<u64>) -> u64 {
    let a = upper(lower(w[2], w[3]), lower(w[0], w[1]));
    let b = lower(upper(w[0], w[1]), upper(w[2], w[3]));
    between(w[4], lower(a, b), upper(a, b))
}

/// The record lies before the window.
pub open spec fn before_window(t0: u64, line: DataLine) -> bool {
    lt(line.time, t0)
}

/// The record lies after the window, and not before it.
pub open spec fn past_window(t0: u64, t1: u64, line: DataLine) -> bool {
    !lt(line.time, t0) && lt(t1, line.time)
}

/// The record lies within the window, both ends included.
pub open spec fn in_window(t0: u64, t1: u64, line: DataLine) -> bool {
    le(t0, line.time) && le(line.time, t1)
}

/// The index of the first record from `from` on that lies after the
/// window, or the length of the recording if there is none.
pub open spec fn closing_from(t0: u64, t1: u64, input: Seq<DataLine>, from: int) -> int
    decreases input.len() - from,
{
    if from >= input.len() {
        input.len() as int
    } else if past_window(t0, t1, input[from]) {
        from
    } else {
        closing_from(t0, t1, input, from + 1)
    }
}

/// Some record among the first `k` lies before the window.
pub open spec fn preceded(t0: u64, input: Seq<DataLine>, k: int) -> bool {
    exists|j: int| 0 <= j < k && j < input.len() && before_window(t0, #[trigger] input[j])
}

/// The finite speeds of the records that lie within the window, in order.
pub open spec fn window_samples(t0: u64, t1: u64, input: Seq<DataLine>) -> Seq<u64>
    decreases input.len(),
{
    if input.len() == 0 {
        Seq::empty()
    } else if in_window(t0, t1, input.last()) && is_finite(input.last().speed) {
        window_samples(t0, t1, input.drop_last()).push(input.last().speed)
    } else {
        window_samples(t0, t1, input.drop_last())
    }
}

/// The largest median of five consecutive samples, and of equal ones the
/// earliest; NaN where there are fewer than five samples.
pub open spec fn peak_of(samples: Seq<u64>) -> u64
    decreases samples.len(),
{
    if samples.len() < 5 {
        NAN
    } else if samples.len() == 5 {
        median_of(samples)
    } else {
        let earlier = peak_of(samples.drop_last());
        let m = median_of(samples.subrange(samples.len() - 5, samples.len() as int));
        if lt(earlier, m) {
            m
        } else {
            earlier
        }
    }
}

/// What a window yields: nothing unless a record after the window closes
/// it, a record before the window precedes that one, and at least five
/// samples were taken in between.
pub open spec fn window_of(t0: u64, t1: u64, input: Seq<DataLine>) -> Option<(Seq<u64>, u64)> {
    let k = closing_from(t0, t1, input, 0);
    let samples = window_samples(t0, t1, input.take(k));
    if k < input.len() && preceded(t0, input, k) && samples.len() >= 5 {
        Some((samples, peak_of(samples)))
    } else {
        None
    }
}

/// The estimate made of a window and of what the accumulator reported of
/// its sample.
pub open spec fn speed_of(window: (Seq<u64>, u64), moments: Moments) -> Speed {
    Speed { stats: sampled_of(window.0.len() as u64, moments), max: window.1 }
}

/// Any two medians of the same five numbers are numerically equal.
pub proof fn lemma_median_unique(w: Seq<u64>, m1: u64, m2: u64)
    requires
        all_numbers(w),
        is_median(w, m1),
        is_median(w, m2),
    ensures
        rank(m1) == rank(m2),
{
    assert(!is_nan(w[0]) && !is_nan(w[1]) && !is_nan(w[2]) && !is_nan(w[3]) && !is_nan(w[4]));
}

/// The median of five numbers is a median of them: it is one of them,
/// three of them at least are no larger, and three at least no smaller.
pub proof fn lemma_median_of(w: Seq<u64>)
    requires
        w.len() == 5,
        all_numbers(w),
    ensures
        is_median(w, median_of(w)),
{
    assert(!is_nan(w[0]) && !is_nan(w[1]) && !is_nan(w[2]) && !is_nan(w[3]) && !is_nan(w[4]));
}

/// `sorted` holds the values of `w`, each once, in ascending order: `at`
/// names, for every place of `sorted`, the place of `w` it was taken from.
pub open spec fn sorts(sorted: Seq<u64>, w: Seq<u64>, at: Seq<int>) -> bool {
    &&& sorted.len() == w.len()
    &&& at.len() == w.len()
    &&& forall|i: int| 0 <= i < at.len() ==> 0 <= #[trigger] at[i] < w.len()
    &&& forall|i: int, j: int| 0 <= i < j < at.len() ==> at[i] != at[j]
    &&& forall|i: int| 0 <= i < at.len() ==> #[trigger] sorted[i] == w[at[i]]
    &&& forall|i: int, j: int| 0 <= i <= j < sorted.len() ==> le(sorted[i], sorted[j])
}

/// A median of five numbers is numerically the middle one of the five in
/// ascending order.
pub proof fn lemma_median_is_sorted_middle(w: Seq<u64>, m: u64, sorted: Seq<u64>, at: Seq<int>)
    requires
        all_numbers(w),
        is_median(w, m),
        sorts(sorted, w, at),
    ensures
        rank(m) == rank(sorted[2]),
{
    assert(!is_nan(w[0]) && !is_nan(w[1]) && !is_nan(w[2]) && !is_nan(w[3]) && !is_nan(w[4]));
    assert(0 <= at[0] < 5 && 0 <= at[1] < 5 && 0 <= at[2] < 5 && 0 <= at[3] < 5 && 0 <= at[4]
        < 5);
    assert(sorted[0] == w[at[0]] && sorted[1] == w[at[1]] && sorted[2] == w[at[2]] && sorted[3]
        == w[at[3]] && sorted[4] == w[at[4]]);
    assert(le(sorted[0], sorted[2]) && le(sorted[1], sorted[2]) && le(sorted[2], sorted[2]) && le(
        sorted[2],
        sorted[3],
    ) && le(sorted[2], sorted[4]));
    assert(is_median(sorted, sorted[2]));
    assert(count_at_most(sorted, m) == count_at_most(w, m)) by {
        lemma_rearranged(sorted, w, at, |x: u64| le(x, m));
    }
    assert(count_at_least(sorted, m) == count_at_least(w, m)) by {
        lemma_rearranged(sorted, w, at, |x: u64| le(m, x));
    }
    assert(is_median(sorted, m)) by {
        assert(m == sorted[0] || m == sorted[1] || m == sorted[2] || m == sorted[3] || m
            == sorted[4]) by {
            lemma_rearranged(sorted, w, at, |x: u64| x == m);
        }
    }
    lemma_median_unique(sorted, m, sorted[2]);
}

/// How many of the five values satisfy `f`.
pub open spec fn count_where(w: Seq<u64>, f: spec_fn(u64) -> bool) -> int {
    unit(f(w[0])) + unit(f(w[1])) + unit(f(w[2])) + unit(f(w[3])) + unit(f(w[4]))
}

/// Rearranging five values does not change how many of them satisfy a
/// condition.
pub proof fn lemma_rearranged(sorted: Seq<u64>, w: Seq<u64>, at: Seq<int>, f: spec_fn(u64) -> bool)
    requires
        w.len() == 5,
        sorted.len() == 5,
        at.len() == 5,
        forall|i: int| 0 <= i < 5 ==> 0 <= #[trigger] at[i] < 5,
        forall|i: int, j: int| 0 <= i < j < 5 ==> at[i] != at[j],
        forall|i: int| 0 <= i < 5 ==> #[trigger] sorted[i] == w[at[i]],
    ensures
        count_where(sorted, f) == count_where(w, f),
{
    assert(0 <= at[0] < 5 && 0 <= at[1] < 5 && 0 <= at[2] < 5 && 0 <= at[3] < 5 && 0 <= at[4]
        < 5);
    assert(at[0] != at[1] && at[0] != at[2] && at[0] != at[3] && at[0] != at[4] && at[1] != at[2]
        && at[1] != at[3] && at[1] != at[4] && at[2] != at[3] && at[2] != at[4] && at[3]
        != at[4]);
    assert(sorted[0] == w[at[0]] && sorted[1] == w[at[1]] && sorted[2] == w[at[2]] && sorted[3]
        == w[at[3]] && sorted[4] == w[at[4]]);
}

/// The median of five numbers by a fixed network of comparisons.
pub fn median5(input: &[u64; 5]) -> (m: u64)
    ensures
        m == median_of(input@),
        m == input[0] || m == input[1] || m == input[2] || m == input[3] || m == input[4],
        all_numbers(input@) ==> is_median(input@, m),
{
    let mut a: u64 = input[0];
    let mut b: u64 = input[1];
    if less(b, a) {
        let temp: u64 = a;
        a = b;
        b = temp;
    }
    let mut c: u64 = input[2];
    let mut d: u64 = input[3];
    if less(d, c) {
        let temp: u64 = c;
        c = d;
        d = temp;
    }
    if less(a, c) {
        a = c;
    }
    if less(d, b) {
        b = d;
    }
    if less(b, a) {
        let temp: u64 = a;
        a = b;
        b = temp;
    }
    let e: u64 = input[4];
    proof {
        if all_numbers(input@) {
            assert(!is_nan(input@[0]) && !is_nan(input@[1]) && !is_nan(input@[2]) && !is_nan(
                input@[3],
            ) && !is_nan(input@[4]));
        }
    }
    if at_most(e, a) {
        a
    } else if at_most(b, e) {
        b
    } else {
        e
    }
}

/// The samples of a window are finite, and as many as the records at most.
pub proof fn lemma_window_samples(t0: u64, t1: u64, input: Seq<DataLine>)
    ensures
        all_finite(window_samples(t0, t1, input)),
        window_samples(t0, t1, input).len() <= input.len(),
    decreases input.len(),
{
    if input.len() > 0 {
        lemma_window_samples(t0, t1, input.drop_last());
    }
}

/// The peak of five finite samples or more is finite.
pub proof fn lemma_peak_of(samples: Seq<u64>)
    requires
        all_finite(samples),
        samples.len() >= 5,
    ensures
        is_finite(peak_of(samples)),
    decreases samples.len(),
{
    let n = samples.len() as int;
    let w = samples.subrange(n - 5, n);
    assert forall|q: int| 0 <= q < w.len() implies is_finite(#[trigger] w[q]) by {
        assert(is_finite(samples[n - 5 + q]));
    }
    lemma_median_of(w);
    if n == 5 {
        assert(w =~= samples);
    } else {
        lemma_peak_of(samples.drop_last());
    }
}

/// The peak of five finite samples or more is the median of five
/// consecutive samples, and numerically no smaller than the median of any
/// five consecutive samples.
pub proof fn lemma_peak_is_largest_median(samples: Seq<u64>)
    requires
        all_finite(samples),
        samples.len() >= 5,
    ensures
        forall|k: int|
            5 <= k <= samples.len() ==> le(
                median_of(#[trigger] samples.subrange(k - 5, k)),
                peak_of(samples),
            ),
        exists|k: int|
            5 <= k <= samples.len() && peak_of(samples) == median_of(
                #[trigger] samples.subrange(k - 5, k),
            ),
    decreases samples.len(),
{
    let n = samples.len() as int;
    let last = samples.subrange(n - 5, n);
    assert forall|q: int| 0 <= q < last.len() implies is_finite(#[trigger] last[q]) by {
        assert(is_finite(samples[n - 5 + q]));
    }
    lemma_median_of(last);
    let m = median_of(last);
    if n == 5 {
        assert(last =~= samples);
        assert forall|k: int| 5 <= k <= samples.len() implies le(
            median_of(#[trigger] samples.subrange(k - 5, k)),
            peak_of(samples),
        ) by {
            assert(samples.subrange(k - 5, k) =~= samples);
        }
        assert(peak_of(samples) == median_of(samples.subrange(n - 5, n)));
    } else {
        let front = samples.drop_last();
        lemma_peak_is_largest_median(front);
        lemma_peak_of(front);
        lemma_order(peak_of(front), m);
        assert forall|k: int| 5 <= k <= samples.len() implies le(
            median_of(#[trigger] samples.subrange(k - 5, k)),
            peak_of(samples),
        ) by {
            if k < n {
                assert(samples.subrange(k - 5, k) =~= front.subrange(k - 5, k));
                assert(le(median_of(front.subrange(k - 5, k)), peak_of(front)));
            }
        }
        if peak_of(samples) != m {
            let k = choose|k: int|
                5 <= k <= front.len() && peak_of(front) == median_of(
                    #[trigger] front.subrange(k - 5, k),
                );
            assert(samples.subrange(k - 5, k) =~= front.subrange(k - 5, k));
        } else {
            assert(peak_of(samples) == median_of(samples.subrange(n - 5, n)));
        }
    }
}

/// The first record past the window lies between `from` and the end, and
/// none before it, from `from` on, is past the window.
pub proof fn lemma_closing_from(t0: u64, t1: u64, input: Seq<DataLine>, from: int)
    requires
        0 <= from <= input.len(),
    ensures
        from <= closing_from(t0, t1, input, from) <= input.len(),
        closing_from(t0, t1, input, from) < input.len() ==> past_window(
            t0,
            t1,
            input[closing_from(t0, t1, input, from)],
        ),
        forall|i: int|
            from <= i < closing_from(t0, t1, input, from) ==> !past_window(
                t0,
                t1,
                #[trigger] input[i],
            ),
    decreases input.len() - from,
{
    if from < input.len() && !past_window(t0, t1, input[from]) {
        lemma_closing_from(t0, t1, input, from + 1);
    }
}

/// A window that no record precedes yields nothing.
pub proof fn lemma_window_needs_earlier_record(t0: u64, t1: u64, input: Seq<DataLine>)
    requires
        forall|i: int| 0 <= i < input.len() ==> !lt((#[trigger] input[i]).time, t0),
    ensures
        window_of(t0, t1, input) is None,
{
}

/// A window that no record follows yields nothing.
pub proof fn lemma_window_needs_later_record(t0: u64, t1: u64, input: Seq<DataLine>)
    requires
        forall|i: int| 0 <= i < input.len() ==> !lt(t1, (#[trigger] input[i]).time),
    ensures
        window_of(t0, t1, input) is None,
{
    lemma_closing_from(t0, t1, input, 0);
}

/// A window that yields something holds at least five samples, all of
/// them finite, and a finite maximum.
pub proof fn lemma_window_of(t0: u64, t1: u64, input: Seq<DataLine>)
    requires
        window_of(t0, t1, input) is Some,
    ensures
        window_of(t0, t1, input).unwrap().0.len() >= 5,
        window_of(t0, t1, input).unwrap().0.len() <= input.len(),
        all_finite(window_of(t0, t1, input).unwrap().0),
        is_finite(window_of(t0, t1, input).unwrap().1),
{
    lemma_closing_from(t0, t1, input, 0);
    let k = closing_from(t0, t1, input, 0);
    lemma_window_samples(t0, t1, input.take(k));
    lemma_peak_of(window_samples(t0, t1, input.take(k)));
}

impl From<Speed> for Sampled {
    /// The snapshot of the sample of a speed.
    fn from(sp: Speed) -> (r: Sampled) {
        sp.stats
    }
}

impl vstd::std_specs::convert::FromSpecImpl<Speed> for Sampled {
    open spec fn obeys_from_spec() -> bool {
        true
    }

    open spec fn from_spec(sp: Speed) -> Sampled {
        sp.stats
    }
}

impl From<&Speed> for Sampled {
    /// The snapshot of the sample of a speed.
    fn from(sp: &Speed) -> (r: Sampled) {
        sp.stats
    }
}

impl vstd::std_specs::convert::FromSpecImpl<&Speed> for Sampled {
    open spec fn obeys_from_spec() -> bool {
        true
    }

    open spec fn from_spec(sp: &Speed) -> Sampled {
        sp.stats
    }
}

impl Speed {
    /// The estimate of a speed of which nothing was seen.
    pub fn zero() -> (r: Speed)
        ensures
            r == (Speed { stats: Sampled { mean: NAN, sem: NAN, n: 0 }, max: NAN }),
    {
        Speed { stats: Sampled::zero(), max: NAN }
    }

    /// The estimate made of a window and of what the accumulator reported
    /// of its sample.
    pub fn of(window: &Window, moments: Moments) -> (r: Speed)
        ensures
            r == speed_of(window@, moments),
            r.stats.n == window.samples@.len(),
            r.max == window.max,
    {
        Speed { stats: Sampled::of(window.samples.len() as u64, moments), max: window.max }
    }
}

/// The window `[t0, t1]` of a recording: its sample and the largest
/// five-sample median, or nothing where the recording does not run on
/// both sides of the window or holds fewer than five samples within it.
pub fn the_speed_in(t0: u64, t1: u64, input: &Vec<DataLine>) -> (r: Option<Window>)
    ensures
        match r {
            Some(w) => window_of(t0, t1, input@) == Some(w@),
            None => window_of(t0, t1, input@) is None,
        },
{
    let mut samples: Vec<u64> = Vec::new();
    let mut max_s: u64 = NAN;
    let mut before: bool = false;
    let mut i: usize = 0;
    proof {
        assert(input@.take(0) =~= Seq::<DataLine>::empty());
    }
    while i < input.len()
        invariant
            i <= input.len(),
            closing_from(t0, t1, input@, 0) == closing_from(t0, t1, input@, i as int),
            before == preceded(t0, input@, i as int),
            samples@ == window_samples(t0, t1, input@.take(i as int)),
            max_s == peak_of(samples@),
        decreases input.len() - i,
    {
        let line: DataLine = input[i];
        proof {
            assert(input@.take(i + 1).drop_last() =~= input@.take(i as int));
            assert(input@.take(i + 1).last() == input@[i as int]);
            lemma_window_samples(t0, t1, input@.take(i as int));
        }
        if less(line.time, t0) {
            before = true;
            proof {
                assert(before_window(t0, input@[i as int]));
            }
        } else if less(t1, line.time) {
            proof {
                assert(preceded(t0, input@, i as int) == before);
            }
            if before && samples.len() >= 5 {
                return Some(Window { samples, max: max_s });
            } else {
                return None;
            }
        } else {
            proof {
                if preceded(t0, input@, i + 1) {
                    let j = choose|j: int|
                        0 <= j < i + 1 && j < input@.len() && before_window(
                            t0,
                            #[trigger] input@[j],
                        );
                    assert(j < i);
                }
            }
            if at_most(t0, line.time) && at_most(line.time, t1) && finite(line.speed) {
                let ghost earlier = samples@;
                samples.push(line.speed);
                let n: usize = samples.len();
                proof {
                    assert(samples@.drop_last() =~= earlier);
                }
                if n >= 5 {
                    let five: [u64; 5] = [
                        samples[n - 5],
                        samples[n - 4],
                        samples[n - 3],
                        samples[n - 2],
                        samples[n - 1],
                    ];
                    let s: u64 = median5(&five);
                    proof {
                        assert(five@ =~= samples@.subrange(n - 5, n as int));
                        if n == 5 {
                            assert(five@ =~= samples@);
                        }
                    }
                    if n == 5 || less(max_s, s) {
                        max_s = s;
                    }
                }
            }
        }
        i += 1;
    }
    proof {
        lemma_closing_from(t0, t1, input@, 0);
    }
    None
}

} // verus!
