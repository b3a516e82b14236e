//! IEEE-754 binary64 numbers as 64-bit patterns.
//!
//! A pattern has a sign bit, eleven exponent bits and fifty-two fraction
//! bits. Patterns whose magnitude lies above that of infinity are NaN. The
//! numeric order of the other patterns is the order of their [`rank`]:
//! sign-and-magnitude read as a signed integer, so that both zeros share
//! rank zero.

use vstd::prelude::*;

verus! {

/// The sign bit.
pub const SIGN: u64 = 0x8000_0000_0000_0000;

/// Every bit but the sign.
pub const MAGNITUDE: u64 = 0x7fff_ffff_ffff_ffff;

/// Positive infinity; also the mask of the exponent bits.
pub const INFINITY: u64 = 0x7ff0_0000_0000_0000;

/// Negative infinity.
pub const NEG_INFINITY: u64 = 0xfff0_0000_0000_0000;

/// The canonical quiet NaN.
pub const NAN: u64 = 0x7ff8_0000_0000_0000;

/// Positive zero.
pub const ZERO: u64 = 0;

/// The pattern with its sign bit cleared.
pub open spec fn magnitude(b: u64) -> u64 {
    b & MAGNITUDE
}

/// Whether the sign bit is set.
pub open spec fn negative(b: u64) -> bool {
    b & SIGN != 0
}

/// Whether the pattern is a NaN.
pub open spec fn is_nan(b: u64) -> bool {
    magnitude(b) > INFINITY
}

/// Whether the pattern is neither a NaN nor an infinity.
pub open spec fn is_finite(b: u64) -> bool {
    magnitude(b) < INFINITY
}

/// Position of a non-NaN pattern on the number line: patterns compare as
/// numbers exactly as their ranks compare as integers.
pub open spec fn rank(b: u64) -> int {
    if negative(b) {
        -(magnitude(b) as int)
    } else {
        magnitude(b) as int
    }
}

/// Numeric `<`; false whenever either side is NaN.
pub open spec fn lt(a: u64, b: u64) -> bool {
    !is_nan(a) && !is_nan(b) && rank(a) < rank(b)
}

/// Numeric `<=`; false whenever either side is NaN.
pub open spec fn le(a: u64, b: u64) -> bool {
    !is_nan(a) && !is_nan(b) && rank(a) <= rank(b)
}

/// Splits a pattern into its sign and its magnitude.
fn parts(b: u64) -> (r: (bool, u64))
    ensures
        r.0 == negative(b),
        r.1 == magnitude(b),
        r.1 <= MAGNITUDE,
{
    let m: u64 = b & MAGNITUDE;
    proof {
        lemma_magnitude(b);
    }
    (b & SIGN != 0, m)
}

/// Tells whether `b` is a NaN.
pub fn nan(b: u64) -> (r: bool)
    ensures
        r == is_nan(b),
{
    parts(b).1 > INFINITY
}

/// Tells whether `b` is finite.
pub fn finite(b: u64) -> (r: bool)
    ensures
        r == is_finite(b),
{
    parts(b).1 < INFINITY
}

/// Numeric `a < b`.
pub fn less(a: u64, b: u64) -> (r: bool)
    ensures
        r == lt(a, b),
{
    let (na, ma) = parts(a);
    let (nb, mb) = parts(b);
    if ma > INFINITY || mb > INFINITY {
        false
    } else if na {
        if nb {
            mb < ma
        } else {
            ma != 0 || mb != 0
        }
    } else {
        !nb && ma < mb
    }
}

/// Numeric `a <= b`.
pub fn at_most(a: u64, b: u64) -> (r: bool)
    ensures
        r == le(a, b),
{
    let (na, ma) = parts(a);
    let (nb, mb) = parts(b);
    if ma > INFINITY || mb > INFINITY {
        false
    } else if na {
        !nb || mb <= ma
    } else if nb {
        ma == 0 && mb == 0
    } else {
        ma <= mb
    }
}

/// The canonical NaN is a NaN.
pub proof fn lemma_nan()
    ensures
        is_nan(NAN),
{
    assert(0x7ff8_0000_0000_0000u64 & 0x7fff_ffff_ffff_ffff > 0x7ff0_0000_0000_0000u64)
        by (bit_vector);
}

/// A magnitude is its own magnitude and is not negative.
pub proof fn lemma_magnitude(b: u64)
    ensures
        magnitude(magnitude(b)) == magnitude(b),
        !negative(magnitude(b)),
        magnitude(b) <= MAGNITUDE,
{
    let m = b & 0x7fff_ffff_ffff_ffff;
    assert(m & 0x7fff_ffff_ffff_ffff == m && m & 0x8000_0000_0000_0000 == 0 && m
        <= 0x7fff_ffff_ffff_ffff) by (bit_vector)
        requires
            m == b & 0x7fff_ffff_ffff_ffff,
    ;
}

/// Among patterns that are no NaN, `lt` and `le` form a total preorder whose
/// only ties are equal patterns and the two zeros.
pub proof fn lemma_order(a: u64, b: u64)
    requires
        !is_nan(a),
        !is_nan(b),
    ensures
        lt(a, b) || lt(b, a) || rank(a) == rank(b),
        le(a, b) <==> !lt(b, a),
        rank(a) == rank(b) ==> a == b || (magnitude(a) == 0 && magnitude(b) == 0),
{
    assert((a & 0x8000_0000_0000_0000 != 0) == (b & 0x8000_0000_0000_0000 != 0) && a
        & 0x7fff_ffff_ffff_ffff == b & 0x7fff_ffff_ffff_ffff ==> a == b) by (bit_vector);
}

} // verus!
