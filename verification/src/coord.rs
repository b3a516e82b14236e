//! The range of one coordinate over a whole recording.

use vstd::prelude::*;
use crate::bits::{finite, is_nan, le, lemma_order, less, lt, NAN};
use crate::parsing::DataLine;
use crate::stats::{finite_of, sampled_of, Moments, Sampled};

verus! {

/// What the tracker finds of a coordinate: the ends and the bounds of its
/// finite values, and those values themselves, in file order.
#[derive(Debug)]
pub struct Extent {
    pub first: u64,
    pub last: u64,
    pub bound0: u64,
    pub bound1: u64,
    pub samples: Vec<u64>,
}

/// The estimate of a coordinate: where it began and ended, the bounds it
/// stayed within, and the snapshot of its sample.
#[derive(Clone, Copy, Debug, PartialEq, Eq, Structural)]
pub struct Coord {
    pub first: u64,
    pub last: u64,
    pub bound0: u64,
    pub bound1: u64,
    pub stats: Sampled,
}

/// The model of an [`Extent`].
pub struct ExtentView {
    pub first: u64,
    pub last: u64,
    pub bound0: u64,
    pub bound1: u64,
    pub samples: Seq<u64>,
}

impl View for Extent {
    type V = ExtentView;

    open spec fn view(&self) -> ExtentView {
        ExtentView {
            first: self.first,
            last: self.last,
            bound0: self.bound0,
            bound1: self.bound1,
            samples: self.samples@,
        }
    }
}

/// The smallest of the values, and of equal ones the earliest; NaN if
/// there are none.
pub open spec fn least(s: Seq<u64>) -> u64
    decreases s.len(),
{
    if s.len() == 0 {
        NAN
    } else if s.len() == 1 {
        s[0]
    } else if lt(s.last(), least(s.drop_last())) {
        s.last()
    } else {
        least(s.drop_last())
    }
}

/// The largest of the values, and of equal ones the earliest; NaN if
/// there are none.
pub open spec fn greatest(s: Seq<u64>) -> u64
    decreases s.len(),
{
    if s.len() == 0 {
        NAN
    } else if s.len() == 1 {
        s[0]
    } else if lt(greatest(s.drop_last()), s.last()) {
        s.last()
    } else {
        greatest(s.drop_last())
    }
}

/// What the tracker finds of the values of a channel: non-finite values
/// are passed over, and where none is finite every field is NaN.
pub open spec fn extent_of(values: Seq<u64>) -> ExtentView {
    let s = finite_of(values);
    if s.len() == 0 {
        ExtentView { first: NAN, last: NAN, bound0: NAN, bound1: NAN, samples: s }
    } else {
        ExtentView {
            first: s.first(),
            last: s.last(),
            bound0: least(s),
            bound1: greatest(s),
            samples: s,
        }
    }
}

/// The estimate made of an extent and of what the accumulator reported of
/// its sample.
pub open spec fn coord_of(extent: ExtentView, moments: Moments) -> Coord {
    Coord {
        first: extent.first,
        last: extent.last,
        bound0: extent.bound0,
        bound1: extent.bound1,
        stats: sampled_of(extent.samples.len() as u64, moments),
    }
}

/// `values` is what the selector `f` reads off the records of `input`,
/// one value for each record.
pub open spec fn selected<F: Fn(&DataLine) -> u64>(
    f: F,
    input: Seq<DataLine>,
    values: Seq<u64>,
) -> bool {
    &&& values.len() == input.len()
    &&& forall|i: int| 0 <= i < input.len() ==> f.ensures((&#[trigger] input[i],), values[i])
}

/// Among numbers, the least is one of them and none is smaller, and the
/// greatest is one of them and none is larger.
pub proof fn lemma_bounds(s: Seq<u64>)
    requires
        s.len() > 0,
        forall|i: int| 0 <= i < s.len() ==> !is_nan(#[trigger] s[i]),
    ensures
        s.contains(least(s)),
        s.contains(greatest(s)),
        forall|i: int| 0 <= i < s.len() ==> le(least(s), #[trigger] s[i]),
        forall|i: int| 0 <= i < s.len() ==> le(#[trigger] s[i], greatest(s)),
    decreases s.len(),
{
    if s.len() == 1 {
        assert(s[0] == least(s));
        assert(!is_nan(s[0]));
    } else {
        let front = s.drop_last();
        assert forall|i: int| 0 <= i < front.len() implies !is_nan(#[trigger] front[i]) by {
            assert(front[i] == s[i]);
        }
        lemma_bounds(front);
        let lo = choose|i: int| 0 <= i < front.len() && front[i] == least(front);
        let hi = choose|i: int| 0 <= i < front.len() && front[i] == greatest(front);
        assert(s[lo] == least(front) && s[hi] == greatest(front));
        assert(s[s.len() - 1] == s.last());
        assert(!is_nan(s.last()));
        assert forall|i: int| 0 <= i < s.len() implies le(least(s), #[trigger] s[i]) && le(
            s[i],
            greatest(s),
        ) by {
            assert(!is_nan(s[i]));
            if i < front.len() {
                assert(front[i] == s[i]);
                assert(le(least(front), front[i]) && le(front[i], greatest(front)));
            }
            lemma_order(s.last(), least(front));
            lemma_order(s.last(), greatest(front));
        }
    }
}

impl Coord {
    /// The estimate of a coordinate of which nothing was seen.
    pub fn zero() -> (r: Coord)
        ensures
            r == (Coord {
                first: NAN,
                last: NAN,
                bound0: NAN,
                bound1: NAN,
                stats: Sampled { mean: NAN, sem: NAN, n: 0 },
            }),
    {
        Coord { first: NAN, last: NAN, bound0: NAN, bound1: NAN, stats: Sampled::zero() }
    }

    /// The estimate made of an extent and of what the accumulator
    /// reported of its sample.
    pub fn of(extent: &Extent, moments: Moments) -> (r: Coord)
        ensures
            r == coord_of(extent@, moments),
            extent.samples@.len() == 0 ==> r.stats == (Sampled { mean: NAN, sem: NAN, n: 0 }),
    {
        Coord {
            first: extent.first,
            last: extent.last,
            bound0: extent.bound0,
            bound1: extent.bound1,
            stats: Sampled::of(extent.samples.len() as u64, moments),
        }
    }
}

/// Tracks a list of values: the first and the last finite one, the
/// smallest and the largest, and the finite values themselves.
pub fn track(values: &Vec<u64>) -> (r: Extent)
    ensures
        r@ == extent_of(values@),
{
    let mut first: u64 = NAN;
    let mut last: u64 = NAN;
    let mut bound0: u64 = NAN;
    let mut bound1: u64 = NAN;
    let mut samples: Vec<u64> = Vec::new();
    let mut i: usize = 0;
    while i < values.len()
        invariant
            i <= values.len(),
            samples@ == finite_of(values@.take(i as int)),
            (ExtentView { first, last, bound0, bound1, samples: samples@ }) == extent_of(
                values@.take(i as int),
            ),
        decreases values.len() - i,
    {
        let a: u64 = values[i];
        proof {
            assert(values@.take(i + 1).drop_last() =~= values@.take(i as int));
        }
        if finite(a) {
            let ghost earlier = samples@;
            if samples.len() == 0 {
                first = a;
                bound0 = a;
                bound1 = a;
            } else {
                if less(a, bound0) {
                    bound0 = a;
                }
                if less(bound1, a) {
                    bound1 = a;
                }
            }
            last = a;
            samples.push(a);
            proof {
                assert(samples@.drop_last() =~= earlier);
            }
        }
        i += 1;
    }
    proof {
        assert(values@.take(i as int) =~= values@);
    }
    Extent { first, last, bound0, bound1, samples }
}

/// Selects the x coordinate of a record.
pub fn the_x(line: &DataLine) -> (v: u64)
    ensures
        v == line.x,
{
    line.x
}

/// Selects the y coordinate of a record.
pub fn the_y(line: &DataLine) -> (v: u64)
    ensures
        v == line.y,
{
    line.y
}

/// Tracks the channel that `f` selects over a whole recording.
pub fn the_coord<F: Fn(&DataLine) -> u64>(f: F, input: &Vec<DataLine>) -> (r: Extent)
    requires
        forall|i: int| 0 <= i < input@.len() ==> f.requires((&#[trigger] input@[i],)),
    ensures
        exists|values: Seq<u64>| selected(f, input@, values) && r@ == extent_of(values),
{
    let mut values: Vec<u64> = Vec::new();
    let mut i: usize = 0;
    while i < input.len()
        invariant
            i <= input.len(),
            values@.len() == i,
            forall|k: int| 0 <= k < input@.len() ==> f.requires((&#[trigger] input@[k],)),
            forall|k: int| 0 <= k < i ==> f.ensures((&#[trigger] input@[k],), values@[k]),
        decreases input.len() - i,
    {
        let v: u64 = f(&input[i]);
        values.push(v);
        i += 1;
    }
    let r = track(&values);
    proof {
        assert(selected(f, input@, values@));
    }
    r
}

} // verus!
