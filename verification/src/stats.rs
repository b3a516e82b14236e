//! Sample selection and the snapshot of a running estimate.
//!
//! The mean and the standard error of a sample are computed by the caller
//! with whatever accumulator it trusts; this module says which values make
//! up the sample, how many they are, which precision the outcome is stored
//! with, and when the outcome is undefined.

use vstd::prelude::*;
use crate::bits::{
    finite, is_finite, is_nan, le, lemma_magnitude, lemma_nan, lt, magnitude, negative, MAGNITUDE,
    NAN,
};
use crate::parsing::DataLine;

verus! {

/// Magnitudes from here on are stored unrounded: 1e12.
pub const ROUNDING_CEILING: u64 = 0x426d_1a94_a200_0000;

/// Magnitudes from here up to the ceiling are stored in millionths: 1e-2.
pub const COARSE_FLOOR: u64 = 0x3f84_7ae1_47ae_147b;

/// Magnitudes from here up to the coarse floor are stored in
/// hundred-millionths: 1e-4.
pub const FINE_FLOOR: u64 = 0x3f1a_36e2_eb1c_432d;

/// The mean of a sample and the standard error of that mean, as bit
/// patterns: what an accumulator reports, or what is stored of it.
#[derive(Clone, Copy, Debug, PartialEq, Eq, Structural)]
pub struct Moments {
    pub mean: u64,
    pub sem: u64,
}

/// The stored snapshot of a running estimate.
#[derive(Clone, Copy, Debug, PartialEq, Eq, Structural)]
pub struct Sampled {
    pub mean: u64,
    pub sem: u64,
    pub n: u64,
}

/// The values of `values` that are finite, in their order.
pub open spec fn finite_of(values: Seq<u64>) -> Seq<u64>
    decreases values.len(),
{
    if values.len() == 0 {
        Seq::empty()
    } else if is_finite(values.last()) {
        finite_of(values.drop_last()).push(values.last())
    } else {
        finite_of(values.drop_last())
    }
}

/// The area channel of a recording.
pub open spec fn areas(input: Seq<DataLine>) -> Seq<u64> {
    Seq::new(input.len(), |i: int| input[i].area)
}

/// The midline channel of a recording.
pub open spec fn midlines(input: Seq<DataLine>) -> Seq<u64> {
    Seq::new(input.len(), |i: int| input[i].midline)
}

/// The factor by which a value is scaled before it is rounded to an
/// integer and scaled back, if it is rounded at all: a million for
/// magnitudes in [1e-2, 1e12), a hundred million for magnitudes in
/// [1e-4, 1e-2), none for smaller or larger ones and for NaN.
pub open spec fn scale_of(value: u64) -> Option<u64> {
    let a = magnitude(value);
    if lt(a, ROUNDING_CEILING) && le(COARSE_FLOOR, a) {
        Some(1_000_000u64)
    } else if lt(a, ROUNDING_CEILING) && le(FINE_FLOOR, a) {
        Some(100_000_000u64)
    } else {
        None
    }
}

/// What is stored for a sample of `n` values whose accumulator reported
/// `moments`: an empty sample has no mean, and a sample of fewer than two
/// values has no standard error.
pub open spec fn sampled_of(n: u64, moments: Moments) -> Sampled {
    Sampled {
        mean: if n == 0 { NAN } else { moments.mean },
        sem: if n <= 1 { NAN } else { moments.sem },
        n,
    }
}

/// Every value of `finite_of` is finite and occurs in the source, and
/// nothing is gained: the selection is no longer than the source.
pub proof fn lemma_finite_of(values: Seq<u64>)
    ensures
        finite_of(values).len() <= values.len(),
        forall|k: int|
            0 <= k < finite_of(values).len() ==> is_finite(#[trigger] finite_of(values)[k])
                && values.contains(finite_of(values)[k]),
        (forall|i: int| 0 <= i < values.len() ==> is_finite(#[trigger] values[i])) ==> finite_of(
            values,
        ) == values,
    decreases values.len(),
{
    if values.len() > 0 {
        let front = values.drop_last();
        lemma_finite_of(front);
        assert forall|k: int| 0 <= k < finite_of(values).len() implies is_finite(
            #[trigger] finite_of(values)[k],
        ) && values.contains(finite_of(values)[k]) by {
            if k < finite_of(front).len() {
                let j = choose|j: int| 0 <= j < front.len() && front[j] == finite_of(front)[k];
                assert(values[j] == finite_of(front)[k]);
            } else {
                assert(values[values.len() - 1] == finite_of(values)[k]);
            }
        }
        if forall|i: int| 0 <= i < values.len() ==> is_finite(#[trigger] values[i]) {
            assert(is_finite(values[values.len() - 1]));
            assert forall|i: int| 0 <= i < front.len() implies is_finite(#[trigger] front[i]) by {
                assert(front[i] == values[i]);
            }
            assert(finite_of(values) =~= values);
        }
    } else {
        assert(finite_of(values) =~= values);
    }
}

/// The three thresholds are magnitudes: numbers that are not negative.
proof fn lemma_thresholds()
    ensures
        magnitude(ROUNDING_CEILING) == ROUNDING_CEILING && !negative(ROUNDING_CEILING),
        magnitude(COARSE_FLOOR) == COARSE_FLOOR && !negative(COARSE_FLOOR),
        magnitude(FINE_FLOOR) == FINE_FLOOR && !negative(FINE_FLOOR),
{
    assert(0x426d_1a94_a200_0000u64 & 0x7fff_ffff_ffff_ffff == 0x426d_1a94_a200_0000u64
        && 0x426d_1a94_a200_0000u64 & 0x8000_0000_0000_0000 == 0) by (bit_vector);
    assert(0x3f84_7ae1_47ae_147bu64 & 0x7fff_ffff_ffff_ffff == 0x3f84_7ae1_47ae_147bu64
        && 0x3f84_7ae1_47ae_147bu64 & 0x8000_0000_0000_0000 == 0) by (bit_vector);
    assert(0x3f1a_36e2_eb1c_432du64 & 0x7fff_ffff_ffff_ffff == 0x3f1a_36e2_eb1c_432du64
        && 0x3f1a_36e2_eb1c_432du64 & 0x8000_0000_0000_0000 == 0) by (bit_vector);
}

/// The precision a value is stored with.
pub fn r6_scale(value: u64) -> (r: Option<u64>)
    ensures
        r == scale_of(value),
{
    let a: u64 = value & MAGNITUDE;
    proof {
        lemma_magnitude(value);
        lemma_thresholds();
    }
    if a < ROUNDING_CEILING {
        if a >= COARSE_FLOOR {
            Some(1_000_000)
        } else if a >= FINE_FLOOR {
            Some(100_000_000)
        } else {
            None
        }
    } else {
        None
    }
}

/// `stored` is what is kept of `value`: what `round` made of it and of
/// its scale, or `value` itself where it has no scale.
pub open spec fn rounded<R: Fn(u64, u64) -> u64>(round: R, value: u64, stored: u64) -> bool {
    match scale_of(value) {
        Some(scale) => round.ensures((value, scale), stored),
        None => stored == value,
    }
}

/// `stored` is what is kept of the moments `raw`.
pub open spec fn rounded_moments<R: Fn(u64, u64) -> u64>(round: R, raw: Moments, stored: Moments)
    -> bool {
    rounded(round, raw.mean, stored.mean) && rounded(round, raw.sem, stored.sem)
}

/// A value brought to the precision it is stored with. `round` is asked
/// to scale the value, round it to an integer and scale it back, and only
/// where the value has a scale.
pub fn r6<R: Fn(u64, u64) -> u64>(value: u64, round: &R) -> (r: u64)
    requires
        forall|v: u64, scale: u64| round.requires((v, scale)),
    ensures
        rounded(*round, value, r),
{
    match r6_scale(value) {
        Some(scale) => round(value, scale),
        None => value,
    }
}

/// Moments brought to the precision they are stored with.
pub fn r6_moments<R: Fn(u64, u64) -> u64>(raw: Moments, round: &R) -> (r: Moments)
    requires
        forall|v: u64, scale: u64| round.requires((v, scale)),
    ensures
        rounded_moments(*round, raw, r),
{
    Moments { mean: r6(raw.mean, round), sem: r6(raw.sem, round) }
}

/// An empty sample is stored without a mean, a sample of one value or
/// none without a standard error, and any other with both as reported.
pub proof fn lemma_sampled_of(n: u64, moments: Moments)
    ensures
        sampled_of(n, moments).n == n,
        n == 0 ==> is_nan(sampled_of(n, moments).mean),
        n <= 1 ==> is_nan(sampled_of(n, moments).sem),
        n >= 1 ==> sampled_of(n, moments).mean == moments.mean,
        n >= 2 ==> sampled_of(n, moments).sem == moments.sem,
{
    lemma_nan();
}

/// Values without a scale: zero, NaN, the infinities, and every magnitude
/// below 1e-4 or from 1e12 on.
pub proof fn lemma_scale_of(value: u64)
    ensures
        is_nan(value) ==> scale_of(value) is None,
        !is_finite(value) ==> scale_of(value) is None,
        magnitude(value) == 0 ==> scale_of(value) is None,
        scale_of(value) == scale_of(magnitude(value)),
{
    lemma_magnitude(value);
    lemma_magnitude(magnitude(value));
    lemma_thresholds();
}

impl Sampled {
    /// The snapshot of an estimate that has seen nothing.
    pub fn zero() -> (r: Self)
        ensures
            r == (Sampled { mean: NAN, sem: NAN, n: 0 }),
            r == sampled_of(0, Moments { mean: NAN, sem: NAN }),
    {
        Sampled { mean: NAN, sem: NAN, n: 0 }
    }

    /// The snapshot of an estimate over `n` values that reported `moments`.
    pub fn of(n: u64, moments: Moments) -> (r: Self)
        ensures
            r == sampled_of(n, moments),
            r.n == n,
            n == 0 ==> is_nan(r.mean),
            n <= 1 ==> is_nan(r.sem),
    {
        proof {
            lemma_nan();
        }
        Sampled {
            mean: if n == 0 { NAN } else { moments.mean },
            sem: if n <= 1 { NAN } else { moments.sem },
            n,
        }
    }
}

/// The finite areas of a recording, in file order: the sample behind its
/// area estimate.
pub fn the_area(input: &Vec<DataLine>) -> (r: Vec<u64>)
    ensures
        r@ == finite_of(areas(input@)),
{
    let mut out: Vec<u64> = Vec::new();
    let mut i: usize = 0;
    while i < input.len()
        invariant
            i <= input.len(),
            out@ == finite_of(areas(input@).take(i as int)),
        decreases input.len() - i,
    {
        let v: u64 = input[i].area;
        proof {
            assert(areas(input@).take(i + 1).drop_last() =~= areas(input@).take(i as int));
        }
        if finite(v) {
            out.push(v);
        }
        i += 1;
    }
    proof {
        assert(areas(input@).take(i as int) =~= areas(input@));
    }
    out
}

/// The finite midline lengths of a recording, in file order: the sample
/// behind its midline estimate.
pub fn the_midline(input: &Vec<DataLine>) -> (r: Vec<u64>)
    ensures
        r@ == finite_of(midlines(input@)),
{
    let mut out: Vec<u64> = Vec::new();
    let mut i: usize = 0;
    while i < input.len()
        invariant
            i <= input.len(),
            out@ == finite_of(midlines(input@).take(i as int)),
        decreases input.len() - i,
    {
        let v: u64 = input[i].midline;
        proof {
            assert(midlines(input@).take(i + 1).drop_last() =~= midlines(input@).take(i as int));
        }
        if finite(v) {
            out.push(v);
        }
        i += 1;
    }
    proof {
        assert(midlines(input@).take(i as int) =~= midlines(input@));
    }
    out
}

} // verus!
