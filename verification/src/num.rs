//! Single-precision numbers, held by their IEEE 754 bit patterns.
//!
//! A number is a `u32`: one sign bit, eight exponent bits and twenty-three
//! fraction bits. Everything the engine asks of a number that depends only on
//! how numbers are ordered (comparison, the neighbouring representable value,
//! the total order used for sorting) is defined here over the bit pattern and
//! proved in integer arithmetic.
use vstd::prelude::*;

verus! {

/// The bit pattern of `0.0`.
pub const ZERO: u32 = 0;

/// The bit pattern of `1.0`.
pub const ONE: u32 = 0x3f80_0000;

/// The bit pattern of positive infinity.
pub const INFINITY: u32 = 0x7f80_0000;

/// The bit pattern of negative infinity.
pub const NEG_INFINITY: u32 = 0xff80_0000;

/// The bit pattern of the smallest finite number (the most negative one).
pub const MIN: u32 = 0xff7f_ffff;

/// The bit pattern of the largest finite number.
pub const MAX: u32 = 0x7f7f_ffff;

/// The bit pattern of the canonical quiet NaN.
pub const NAN: u32 = 0x7fc0_0000;

/// The value of the sign bit.
pub const SIGN_BIT: u32 = 0x8000_0000;

/// Whether the sign bit of `bits` is set.
pub open spec fn is_negative(bits: u32) -> bool {
    bits >= SIGN_BIT
}

/// The bit pattern with the sign bit cleared.
pub open spec fn magnitude(bits: u32) -> u32 {
    if bits >= SIGN_BIT {
        (bits - SIGN_BIT) as u32
    } else {
        bits
    }
}

/// Whether `bits` is a NaN: all exponent bits set and a non-zero fraction.
pub open spec fn is_nan(bits: u32) -> bool {
    magnitude(bits) > INFINITY
}

/// Whether `bits` is neither a NaN nor an infinity.
pub open spec fn is_finite(bits: u32) -> bool {
    magnitude(bits) < INFINITY
}

/// The place of a number on the number line: both zeros share place 0, and
/// for numbers that are not NaN a larger place is a larger number.
pub open spec fn rank(bits: u32) -> int {
    if is_negative(bits) {
        -(magnitude(bits) as int)
    } else {
        magnitude(bits) as int
    }
}

/// The place of a bit pattern in the IEEE 754 total order: negative NaNs,
/// negative infinity, negative numbers, `-0.0`, `0.0`, positive numbers,
/// positive infinity, positive NaNs.
pub open spec fn total_rank(bits: u32) -> int {
    if is_negative(bits) {
        -(magnitude(bits) as int) - 1
    } else {
        magnitude(bits) as int
    }
}

/// `a <= b` as numbers: false when either is a NaN.
pub open spec fn le(a: u32, b: u32) -> bool {
    !is_nan(a) && !is_nan(b) && rank(a) <= rank(b)
}

/// `a < b` as numbers: false when either is a NaN.
pub open spec fn lt(a: u32, b: u32) -> bool {
    !is_nan(a) && !is_nan(b) && rank(a) < rank(b)
}

/// `a == b` as numbers: false when either is a NaN, true of the two zeros.
pub open spec fn eq(a: u32, b: u32) -> bool {
    !is_nan(a) && !is_nan(b) && rank(a) == rank(b)
}

/// The least number greater than `bits`; NaN and positive infinity stay as
/// they are.
pub open spec fn next_up(bits: u32) -> u32 {
    if is_nan(bits) || bits == INFINITY {
        bits
    } else if magnitude(bits) == 0 {
        1u32
    } else if is_negative(bits) {
        (bits - 1) as u32
    } else {
        (bits + 1) as u32
    }
}

/// The greatest number less than `bits`; NaN and negative infinity stay as
/// they are.
pub open spec fn next_down(bits: u32) -> u32 {
    if is_nan(bits) || bits == NEG_INFINITY {
        bits
    } else if magnitude(bits) == 0 {
        0x8000_0001u32
    } else if is_negative(bits) {
        (bits + 1) as u32
    } else {
        (bits - 1) as u32
    }
}

/// The bit pattern of the number with the opposite sign.
pub open spec fn negated(bits: u32) -> u32 {
    if bits >= SIGN_BIT {
        (bits - SIGN_BIT) as u32
    } else {
        (bits + SIGN_BIT) as u32
    }
}

/// The bit pattern that stands for a boolean: `0.0` or `1.0`.
pub open spec fn of_bool(b: bool) -> u32 {
    if b {
        ONE
    } else {
        ZERO
    }
}

pub fn check_is_nan(bits: u32) -> (r: bool)
    ensures
        r == is_nan(bits),
{
    let mag: u32 = if bits >= SIGN_BIT { bits - SIGN_BIT } else { bits };
    mag > INFINITY
}

pub fn check_is_finite(bits: u32) -> (r: bool)
    ensures
        r == is_finite(bits),
{
    let mag: u32 = if bits >= SIGN_BIT { bits - SIGN_BIT } else { bits };
    mag < INFINITY
}

/// The rank of a bit pattern, computed.
pub fn rank_of(bits: u32) -> (r: i64)
    ensures
        r == rank(bits),
{
    if bits >= SIGN_BIT {
        let mag: u32 = bits - SIGN_BIT;
        -(mag as i64)
    } else {
        bits as i64
    }
}

/// The total rank of a bit pattern, computed.
pub fn total_rank_of(bits: u32) -> (r: i64)
    ensures
        r == total_rank(bits),
{
    if bits >= SIGN_BIT {
        let mag: u32 = bits - SIGN_BIT;
        -(mag as i64) - 1
    } else {
        bits as i64
    }
}

pub fn check_le(a: u32, b: u32) -> (r: bool)
    ensures
        r == le(a, b),
{
    !check_is_nan(a) && !check_is_nan(b) && rank_of(a) <= rank_of(b)
}

pub fn check_lt(a: u32, b: u32) -> (r: bool)
    ensures
        r == lt(a, b),
{
    !check_is_nan(a) && !check_is_nan(b) && rank_of(a) < rank_of(b)
}

pub fn check_eq(a: u32, b: u32) -> (r: bool)
    ensures
        r == eq(a, b),
{
    !check_is_nan(a) && !check_is_nan(b) && rank_of(a) == rank_of(b)
}

pub fn step_up(bits: u32) -> (r: u32)
    ensures
        r == next_up(bits),
{
    let mag: u32 = if bits >= SIGN_BIT { bits - SIGN_BIT } else { bits };
    if mag > INFINITY || bits == INFINITY {
        bits
    } else if mag == 0 {
        1
    } else if bits >= SIGN_BIT {
        bits - 1
    } else {
        bits + 1
    }
}

pub fn step_down(bits: u32) -> (r: u32)
    ensures
        r == next_down(bits),
{
    let mag: u32 = if bits >= SIGN_BIT { bits - SIGN_BIT } else { bits };
    if mag > INFINITY || bits == NEG_INFINITY {
        bits
    } else if mag == 0 {
        0x8000_0001
    } else if bits >= SIGN_BIT {
        bits + 1
    } else {
        bits - 1
    }
}

pub fn negate(bits: u32) -> (r: u32)
    ensures
        r == negated(bits),
{
    if bits >= SIGN_BIT {
        bits - SIGN_BIT
    } else {
        bits + SIGN_BIT
    }
}

pub fn from_bool(b: bool) -> (r: u32)
    ensures
        r == of_bool(b),
{
    if b {
        ONE
    } else {
        ZERO
    }
}

/// Stepping up from anything below positive infinity gives a strictly greater
/// number, and no number lies between the two.
pub proof fn lemma_next_up_is_successor(bits: u32, x: u32)
    requires
        !is_nan(bits),
        bits != INFINITY,
    ensures
        lt(bits, next_up(bits)),
        rank(next_up(bits)) == rank(bits) + 1,
        !is_nan(next_up(bits)),
        lt(bits, x) <==> le(next_up(bits), x),
{
}

/// A number lies below `bound` exactly when it lies at or below the number
/// one step down from `bound`. Negative infinity has nothing below it and
/// is left out.
pub proof fn lemma_next_down_closes_open_bound(bound: u32, x: u32)
    requires
        bound != NEG_INFINITY,
    ensures
        lt(x, bound) <==> le(x, next_down(bound)),
{
}

/// The bound itself is never below itself: an exclusive upper bound leaves
/// its own value out, an inclusive one lets it in.
pub proof fn lemma_bound_excluded_and_included(bound: u32)
    requires
        !is_nan(bound),
    ensures
        bound != NEG_INFINITY ==> !le(bound, next_down(bound)),
        le(bound, bound),
{
}

/// Every number that is not a NaN lies between the two infinities.
pub proof fn lemma_infinities_bound_everything(x: u32)
    ensures
        !is_nan(x) <==> le(NEG_INFINITY, x) && le(x, INFINITY),
{
}

/// The total order agrees with the numeric order except that it tells the two
/// zeros apart and places the NaNs.
pub proof fn lemma_total_rank_refines_rank(a: u32, b: u32)
    requires
        !is_nan(a),
        !is_nan(b),
    ensures
        lt(a, b) ==> total_rank(a) < total_rank(b),
        total_rank(a) <= total_rank(b) ==> le(a, b),
        total_rank(a) == total_rank(b) <==> a == b,
{
}

} // verus!
