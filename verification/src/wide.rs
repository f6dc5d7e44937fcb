//! Arithmetic in double precision.
//!
//! A few sums run over so many samples that single precision would drift. The
//! caller supplies the arithmetic on doubles as one function of the operation
//! and its arguments; what is said here holds whatever that function gives.
//! Doubles are compared by their patterns.

use vstd::prelude::*;
use vstd::arithmetic::power2::{pow2, lemma2_to64};
use crate::double::{DoubleBits, double_is_nan, double_magnitude, double_unsigned};
use crate::scalar::at_most_word;
use crate::single::{Bits, shift_down};

verus! {

/// An operation on doubles.
#[derive(Clone, Copy, PartialEq, Eq, Debug, Structural)]
pub enum Operation {
    /// The double that a single is; the pattern of the single is the first argument.
    FromSingle,
    /// The double nearest to a whole number, which is the first argument.
    FromWhole,
    Plus,
    Minus,
    Times,
    Over,
    /// The square root of the first argument.
    SquareRoot,
    /// The logarithm to base ten of the first argument.
    Log10,
}

pub const WIDE_ZERO: DoubleBits = 0;
pub const WIDE_ONE: DoubleBits = 0x3ff0_0000_0000_0000;
pub const WIDE_MINUS_ONE: DoubleBits = 0xbff0_0000_0000_0000;
pub const WIDE_TWO: DoubleBits = 0x4000_0000_0000_0000;
pub const WIDE_TEN: DoubleBits = 0x4024_0000_0000_0000;
/// Ten to the power of minus twelve.
pub const WIDE_SMALL: DoubleBits = 0x3d71_9799_812d_ea11;
/// Ten to the power of minus eighteen.
pub const WIDE_TINY: DoubleBits = 0x3c32_725d_d1d2_43ac;
/// Ten to the power of minus twenty.
pub const WIDE_LEAST: DoubleBits = 0x3bc7_9ca1_0c92_4223;

/// A supplied arithmetic has a value for all arguments, and always the same one.
pub open spec fn is_arithmetic<D: Fn(Operation, DoubleBits, DoubleBits) -> DoubleBits>(d: &D) -> bool {
    &&& forall|o: Operation, a: DoubleBits, b: DoubleBits| #[trigger] call_requires(*d, (o, a, b))
    &&& forall|o: Operation, a: DoubleBits, b: DoubleBits, x: DoubleBits, y: DoubleBits| #[trigger]
        call_ensures(*d, (o, a, b), x) && #[trigger] call_ensures(*d, (o, a, b), y) ==> x == y
}

/// What an operation gives.
pub open spec fn result<D: Fn(Operation, DoubleBits, DoubleBits) -> DoubleBits>(
    d: &D,
    o: Operation,
    a: DoubleBits,
    b: DoubleBits,
) -> DoubleBits {
    choose|y: DoubleBits| call_ensures(*d, (o, a, b), y)
}

/// What an operation gives.
pub fn compute<D: Fn(Operation, DoubleBits, DoubleBits) -> DoubleBits>(
    d: &D,
    o: Operation,
    a: DoubleBits,
    b: DoubleBits,
) -> (y: DoubleBits)
    requires
        is_arithmetic(d),
    ensures
        y == result(d, o, a, b),
{
    let y: DoubleBits = d(o, a, b);
    assert(call_ensures(*d, (o, a, b), y));
    y
}

pub open spec fn widened<D: Fn(Operation, DoubleBits, DoubleBits) -> DoubleBits>(d: &D, b: Bits) -> DoubleBits {
    result(d, Operation::FromSingle, b as u64, 0)
}

pub open spec fn plus<D: Fn(Operation, DoubleBits, DoubleBits) -> DoubleBits>(
    d: &D,
    a: DoubleBits,
    b: DoubleBits,
) -> DoubleBits {
    result(d, Operation::Plus, a, b)
}

pub open spec fn minus<D: Fn(Operation, DoubleBits, DoubleBits) -> DoubleBits>(
    d: &D,
    a: DoubleBits,
    b: DoubleBits,
) -> DoubleBits {
    result(d, Operation::Minus, a, b)
}

pub open spec fn times<D: Fn(Operation, DoubleBits, DoubleBits) -> DoubleBits>(
    d: &D,
    a: DoubleBits,
    b: DoubleBits,
) -> DoubleBits {
    result(d, Operation::Times, a, b)
}

pub open spec fn over<D: Fn(Operation, DoubleBits, DoubleBits) -> DoubleBits>(
    d: &D,
    a: DoubleBits,
    b: DoubleBits,
) -> DoubleBits {
    result(d, Operation::Over, a, b)
}

// ---- Whole numbers ----------------------------------------------------------

/// The number without its fraction: zero for negative numbers and for what is
/// not a number, the greatest 64-bit number where it is too large.
pub open spec fn wide_whole(d: DoubleBits) -> nat {
    if double_is_nan(d) || d >= 0x8000_0000_0000_0000 {
        0
    } else {
        at_most_word(double_magnitude(d) / pow2(1074))
    }
}

/// The number without its fraction.
pub fn wide_truncate(d: DoubleBits) -> (r: u64)
    ensures
        r == wide_whole(d),
{
    if d > 0x7ff0_0000_0000_0000 {
        return 0;
    }
    let e: u64 = d / 0x10_0000_0000_0000;
    let f: u64 = d % 0x10_0000_0000_0000;
    proof {
        lemma2_to64();
    }
    if e == 0 {
        assert(f * pow2(0) == f);
        shift_down(f, 0, 1074).0
    } else {
        shift_down(f + 0x10_0000_0000_0000, (e - 1) as u32, 1074).0
    }
}

// ---- Comparisons ------------------------------------------------------------

/// Where a double stands among all doubles: patterns count up from zero, and
/// down where there is a sign.
pub open spec fn rank(d: DoubleBits) -> int {
    if d >= 0x8000_0000_0000_0000 {
        -(double_unsigned(d) as int)
    } else {
        double_unsigned(d) as int
    }
}

/// `a < b`; false where one is not a number.
pub open spec fn below(a: DoubleBits, b: DoubleBits) -> bool {
    !double_is_nan(a) && !double_is_nan(b) && rank(a) < rank(b)
}

/// `a < b`.
pub fn is_below(a: DoubleBits, b: DoubleBits) -> (r: bool)
    ensures
        r == below(a, b),
{
    let u: u64 = a % 0x8000_0000_0000_0000;
    let v: u64 = b % 0x8000_0000_0000_0000;
    if u > 0x7ff0_0000_0000_0000 || v > 0x7ff0_0000_0000_0000 {
        return false;
    }
    let minus_a: bool = a >= 0x8000_0000_0000_0000;
    let minus_b: bool = b >= 0x8000_0000_0000_0000;
    if minus_a && minus_b {
        v < u
    } else if minus_a {
        u != 0 || v != 0
    } else if minus_b {
        false
    } else {
        u < v
    }
}

/// `a.max(b)`: the other one where one is not a number.
pub open spec fn wide_max(a: DoubleBits, b: DoubleBits) -> DoubleBits {
    if double_is_nan(a) || below(a, b) {
        b
    } else {
        a
    }
}

/// `a.max(b)`.
pub fn wide_larger(a: DoubleBits, b: DoubleBits) -> (r: DoubleBits)
    ensures
        r == wide_max(a, b),
{
    if a % 0x8000_0000_0000_0000 > 0x7ff0_0000_0000_0000 || is_below(a, b) {
        b
    } else {
        a
    }
}

/// The nearest double from minus one to one.
pub open spec fn in_unit(x: DoubleBits) -> DoubleBits {
    if below(x, WIDE_MINUS_ONE) {
        WIDE_MINUS_ONE
    } else if below(WIDE_ONE, x) {
        WIDE_ONE
    } else {
        x
    }
}

/// The nearest double from minus one to one.
pub fn to_unit(x: DoubleBits) -> (r: DoubleBits)
    ensures
        r == in_unit(x),
{
    if is_below(x, WIDE_MINUS_ONE) {
        WIDE_MINUS_ONE
    } else if is_below(WIDE_ONE, x) {
        WIDE_ONE
    } else {
        x
    }
}

} // verus!
