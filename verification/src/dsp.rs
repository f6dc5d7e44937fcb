//! The clipper curves a zone can choose from.
//!
//! A sample is divided by the ceiling, bent by the curve, and multiplied by the
//! ceiling again. Some curves rest on a function of the mathematical library
//! (a hyperbolic tangent, a square root). `argument` says what that function is
//! applied to, and `shape` takes what it gave.

use vstd::prelude::*;
use vstd::arithmetic::power2::*;
use crate::functions::{Function, is_total, gives, evaluate};
use crate::arith::{lemma_pattern_exact, lemma_ratio_pattern, lemma_infinity};
use crate::rounding::lemma_ratio_between;
use crate::single::{HALF, TWO, MINUS_ONE, MILLIONTH};
use crate::single::{Bits, INFINITY, ONE, is_nan, is_finite, negative, unsigned, magnitude, value, at_most, is_at_most, clamped, clamp, lemma_magnitude_order};
use crate::scalar::{fadd, fsub, fmul, fdiv, fmax, fabs};
use crate::scalar::{add_to, subtract, multiply, divide_by, larger, absolute};

verus! {

/// The waveshaping curve of a zone.
#[derive(Clone, Copy, PartialEq, Eq, Debug, Structural)]
pub enum ClipperType {
    Hard,
    Quintic,
    Cubic,
    Tangent,
    Algebraic,
    Arctangent,
    /// Folds back past the threshold instead of saturating flat.
    SineFold,
    /// A warmer, tape-like tanh.
    TanhDrive,
    /// A logistic S-curve.
    Sigmoid,
}

impl ClipperType {
    pub open spec fn name(self) -> Seq<char> {
        match self {
            ClipperType::Hard => "Hard"@,
            ClipperType::Quintic => "Quintic"@,
            ClipperType::Cubic => "Cubic"@,
            ClipperType::Tangent => "Tangent"@,
            ClipperType::Algebraic => "Algebraic"@,
            ClipperType::Arctangent => "Arctangent"@,
            ClipperType::SineFold => "Sine Fold"@,
            ClipperType::TanhDrive => "Tanh Drive"@,
            ClipperType::Sigmoid => "Sigmoid"@,
        }
    }

    /// Every curve, in the order of the menu.
    pub fn all() -> (list: [ClipperType; 9])
        ensures
            list@ == seq![
                ClipperType::Hard,
                ClipperType::Quintic,
                ClipperType::Cubic,
                ClipperType::Tangent,
                ClipperType::Algebraic,
                ClipperType::Arctangent,
                ClipperType::SineFold,
                ClipperType::TanhDrive,
                ClipperType::Sigmoid,
            ],
    {
        let list: [ClipperType; 9] = [
            ClipperType::Hard,
            ClipperType::Quintic,
            ClipperType::Cubic,
            ClipperType::Tangent,
            ClipperType::Algebraic,
            ClipperType::Arctangent,
            ClipperType::SineFold,
            ClipperType::TanhDrive,
            ClipperType::Sigmoid,
        ];
        list
    }

    /// The name shown in menus.
    pub fn label(&self) -> (s: &'static str)
        ensures
            s@ == self.name(),
    {
        match self {
            ClipperType::Hard => "Hard",
            ClipperType::Quintic => "Quintic",
            ClipperType::Cubic => "Cubic",
            ClipperType::Tangent => "Tangent",
            ClipperType::Algebraic => "Algebraic",
            ClipperType::Arctangent => "Arctangent",
            ClipperType::SineFold => "Sine Fold",
            ClipperType::TanhDrive => "Tanh Drive",
            ClipperType::Sigmoid => "Sigmoid",
        }
    }
}

pub const ONE_AND_HALF: Bits = 0x3fc0_0000;
pub const THREE: Bits = 0x4040_0000;
pub const EIGHT: Bits = 0x4100_0000;
pub const TEN: Bits = 0x4120_0000;
pub const FIFTEEN: Bits = 0x4170_0000;
/// A quarter turn.
pub const QUARTER_TURN: Bits = 0x3fc9_0fdb;
pub const TWENTY: Bits = 0x41a0_0000;
/// The level of silence, in decibels.
pub const NO_LEVEL: Bits = 0xc2f0_0000;
/// How hard the driven tanh is driven.
pub const DRIVE: Bits = 0x4020_0000;
/// Steepness of the logistic curve, negated.
pub const MINUS_STEEPNESS: Bits = 0xc040_0000;

impl ClipperType {
    pub open spec fn needs(self) -> Function {
        match self {
            ClipperType::Hard | ClipperType::Quintic | ClipperType::Cubic => Function::Unneeded,
            ClipperType::Tangent | ClipperType::TanhDrive => Function::Tanh,
            ClipperType::Algebraic => Function::SquareRoot,
            ClipperType::Arctangent => Function::Atan,
            ClipperType::SineFold => Function::Sin,
            ClipperType::Sigmoid => Function::Exp,
        }
    }

    /// The function of the mathematical library that the curve rests on.
    pub fn function(&self) -> (f: Function)
        ensures
            f == self.needs(),
    {
        match self {
            ClipperType::Hard | ClipperType::Quintic | ClipperType::Cubic => Function::Unneeded,
            ClipperType::Tangent | ClipperType::TanhDrive => Function::Tanh,
            ClipperType::Algebraic => Function::SquareRoot,
            ClipperType::Arctangent => Function::Atan,
            ClipperType::SineFold => Function::Sin,
            ClipperType::Sigmoid => Function::Exp,
        }
    }
}

/// What the function of a curve is applied to at `n`.
pub open spec fn argument_at(kind: ClipperType, n: Bits) -> Bits {
    match kind {
        ClipperType::Algebraic => fadd(ONE, fmul(n, n)),
        ClipperType::SineFold => fmul(n, QUARTER_TURN),
        ClipperType::TanhDrive => fmul(DRIVE, n),
        ClipperType::Sigmoid => fmul(MINUS_STEEPNESS, n),
        _ => n,
    }
}

/// The logistic curve from minus one to one, where `e` is the exponential.
pub open spec fn logistic(e: Bits) -> Bits {
    fsub(fdiv(TWO, fadd(ONE, e)), ONE)
}

/// Full scale with the sign of a number.
pub open spec fn rail(n: Bits) -> Bits {
    if negative(n) {
        MINUS_ONE
    } else {
        ONE
    }
}

/// The curve at `n`, where `f` is its function at `argument_at(kind, n)` and
/// `f_one` the same at one.
pub open spec fn curve_at(kind: ClipperType, n: Bits, f: Bits, f_one: Bits) -> Bits {
    match kind {
        ClipperType::Hard => clamped(n, MINUS_ONE, ONE),
        ClipperType::Quintic => if at_most(ONE, fabs(n)) {
            rail(n)
        } else {
            let n3 = fmul(fmul(n, n), n);
            let n5 = fmul(fmul(n3, n), n);
            fdiv(fadd(fsub(fmul(FIFTEEN, n), fmul(TEN, n3)), fmul(THREE, n5)), EIGHT)
        },
        ClipperType::Cubic => if at_most(ONE, fabs(n)) {
            rail(n)
        } else {
            fsub(fmul(ONE_AND_HALF, n), fmul(fmul(fmul(HALF, n), n), n))
        },
        ClipperType::Tangent => f,
        ClipperType::Algebraic => fdiv(n, f),
        ClipperType::Arctangent => fdiv(f, QUARTER_TURN),
        ClipperType::SineFold => f,
        ClipperType::TanhDrive => clamped(fdiv(f, f_one), MINUS_ONE, ONE),
        ClipperType::Sigmoid => clamped(
            fdiv(logistic(f), fmax(logistic(f_one), MILLIONTH)),
            MINUS_ONE,
            ONE,
        ),
    }
}

/// A sample in units of the ceiling.
pub open spec fn in_ceilings(sample: Bits, ceiling: Bits) -> Bits {
    fdiv(sample, ceiling)
}

/// A sample after the clipper.
pub open spec fn shaped(sample: Bits, ceiling: Bits, kind: ClipperType, f: Bits, f_one: Bits) -> Bits {
    if at_most(ceiling, MILLIONTH) {
        0
    } else {
        fmul(curve_at(kind, in_ceilings(sample, ceiling), f, f_one), ceiling)
    }
}

/// What the function of a curve is applied to for a sample.
pub fn argument(sample: Bits, ceiling: Bits, kind: ClipperType) -> (r: Bits)
    ensures
        r == argument_at(kind, in_ceilings(sample, ceiling)),
{
    let n: Bits = divide_by(sample, ceiling);
    curve_argument(kind, n)
}

/// What the function of a curve is applied to at `n`.
pub fn curve_argument(kind: ClipperType, n: Bits) -> (r: Bits)
    ensures
        r == argument_at(kind, n),
{
    match kind {
        ClipperType::Algebraic => add_to(ONE, multiply(n, n)),
        ClipperType::SineFold => multiply(n, QUARTER_TURN),
        ClipperType::TanhDrive => multiply(DRIVE, n),
        ClipperType::Sigmoid => multiply(MINUS_STEEPNESS, n),
        _ => n,
    }
}

fn to_logistic(e: Bits) -> (r: Bits)
    ensures
        r == logistic(e),
{
    subtract(divide_by(TWO, add_to(ONE, e)), ONE)
}

fn to_rail(n: Bits) -> (r: Bits)
    ensures
        r == rail(n),
{
    if n >= 0x8000_0000 {
        MINUS_ONE
    } else {
        ONE
    }
}

fn curve(kind: ClipperType, n: Bits, f: Bits, f_one: Bits) -> (r: Bits)
    ensures
        r == curve_at(kind, n, f, f_one),
{
    proof {
        lemma_rails();
    }
    match kind {
        ClipperType::Hard => clamp(n, MINUS_ONE, ONE),
        ClipperType::Quintic => if is_at_most(ONE, absolute(n)) {
            to_rail(n)
        } else {
            let n3: Bits = multiply(multiply(n, n), n);
            let n5: Bits = multiply(multiply(n3, n), n);
            let inner: Bits = subtract(multiply(FIFTEEN, n), multiply(TEN, n3));
            divide_by(add_to(inner, multiply(THREE, n5)), EIGHT)
        },
        ClipperType::Cubic => if is_at_most(ONE, absolute(n)) {
            to_rail(n)
        } else {
            subtract(multiply(ONE_AND_HALF, n), multiply(multiply(multiply(HALF, n), n), n))
        },
        ClipperType::Tangent => f,
        ClipperType::Algebraic => divide_by(n, f),
        ClipperType::Arctangent => divide_by(f, QUARTER_TURN),
        ClipperType::SineFold => f,
        ClipperType::TanhDrive => clamp(divide_by(f, f_one), MINUS_ONE, ONE),
        ClipperType::Sigmoid => {
            let scale: Bits = larger(to_logistic(f_one), MILLIONTH);
            clamp(divide_by(to_logistic(f), scale), MINUS_ONE, ONE)
        },
    }
}

/// Sends a sample through the clipper. `f` is what the curve's function gave
/// for `argument(sample, ceiling, kind)`, and `f_one` what it gives for
/// `curve_argument(kind, 1)`.
pub fn shape(sample: Bits, ceiling: Bits, kind: ClipperType, f: Bits, f_one: Bits) -> (r: Bits)
    ensures
        r == shaped(sample, ceiling, kind, f, f_one),
{
    if is_at_most(ceiling, MILLIONTH) {
        return 0;
    }
    let n: Bits = divide_by(sample, ceiling);
    multiply(curve(kind, n, f, f_one), ceiling)
}

pub proof fn lemma_rails()
    ensures
        at_most(MINUS_ONE, ONE),
        magnitude(ONE) == pow2(149),
        magnitude(MINUS_ONE) == pow2(149),
{
    lemma2_to64();
    lemma_pow2_adds(23, 126);
    assert(unsigned(ONE) == ONE && unsigned(MINUS_ONE) == ONE);
    lemma_magnitude_order(ONE, MINUS_ONE);
    assert(crate::single::last_digit(ONE) == 126 && crate::single::significand(ONE) == 0x80_0000);
}

/// `amp` is the amplitude of a level in decibels.
pub open spec fn is_amplitude<M: Fn(Function, Bits) -> Bits>(m: &M, db: Bits, amp: Bits) -> bool {
    gives(m, Function::TenTo, fdiv(db, TWENTY), amp)
}

/// The amplitude of a level in decibels.
pub fn db_to_amp<M: Fn(Function, Bits) -> Bits>(m: &M, db: Bits) -> (amp: Bits)
    requires
        is_total(m),
    ensures
        is_amplitude(m, db, amp),
{
    evaluate(m, Function::TenTo, divide_by(db, TWENTY))
}

/// `db` is the level of an amplitude in decibels; next to nothing counts as
/// silence.
pub open spec fn is_level<M: Fn(Function, Bits) -> Bits>(m: &M, amp: Bits, db: Bits) -> bool {
    if at_most(amp, MILLIONTH) {
        db == NO_LEVEL
    } else {
        exists|log: Bits| #[trigger] gives(m, Function::Log10, amp, log) && db == fmul(TWENTY, log)
    }
}

/// The level of an amplitude in decibels.
pub fn amp_to_db<M: Fn(Function, Bits) -> Bits>(m: &M, amp: Bits) -> (db: Bits)
    requires
        is_total(m),
    ensures
        is_level(m, amp, db),
{
    if is_at_most(amp, MILLIONTH) {
        NO_LEVEL
    } else {
        let log: Bits = evaluate(m, Function::Log10, amp);
        multiply(TWENTY, log)
    }
}

/// No sample leaves the clipper beyond the ceiling, wherever the curve stays
/// between minus one and one.
pub proof fn law_bounded_by_ceiling(sample: Bits, ceiling: Bits, kind: ClipperType, f: Bits, f_one: Bits)
    requires
        is_finite(ceiling),
        at_most(0, ceiling),
        at_most(MINUS_ONE, curve_at(kind, in_ceilings(sample, ceiling), f, f_one)),
        at_most(curve_at(kind, in_ceilings(sample, ceiling), f, f_one), ONE),
    ensures
        at_most(fabs(shaped(sample, ceiling, kind, f, f_one)), ceiling),
{
    let out = shaped(sample, ceiling, kind, f, f_one);
    lemma_rails();
    crate::single::lemma_zero(0);
    crate::single::lemma_zero(ceiling);
    if at_most(ceiling, MILLIONTH) {
        assert(fabs(out) == 0);
    } else {
        let y = curve_at(kind, in_ceilings(sample, ceiling), f, f_one);
        assert(is_finite(y)) by {
            lemma_magnitude_order(y, ONE);
        }
        lemma_factor_shrinks(y, ceiling);
        lemma_absolute(out);
        if negative(ceiling) {
            assert(value(ceiling) == 0);
        }
    }
}

/// The clippers that cut at full scale keep every sample within the ceiling,
/// whatever the sample and whatever their function gives.
pub proof fn law_cut_within_ceiling(sample: Bits, ceiling: Bits, kind: ClipperType, f: Bits, f_one: Bits)
    requires
        is_finite(ceiling),
        at_most(0, ceiling),
        kind is Hard || kind is TanhDrive || kind is Sigmoid,
        !is_nan(curve_at(kind, in_ceilings(sample, ceiling), f, f_one)),
    ensures
        at_most(fabs(shaped(sample, ceiling, kind, f, f_one)), ceiling),
{
    lemma_rails();
    law_bounded_by_ceiling(sample, ceiling, kind, f, f_one);
}

/// A sample within the ceiling passes the hard clipper almost unchanged: it is
/// only divided by the ceiling and multiplied by it again.
pub proof fn law_hard_passes_below_ceiling(sample: Bits, ceiling: Bits, f: Bits, f_one: Bits)
    requires
        !at_most(ceiling, MILLIONTH),
        at_most(MINUS_ONE, in_ceilings(sample, ceiling)),
        at_most(in_ceilings(sample, ceiling), ONE),
    ensures
        shaped(sample, ceiling, ClipperType::Hard, f, f_one) == fmul(fdiv(sample, ceiling), ceiling),
{
}

pub proof fn lemma_absolute(b: Bits)
    requires
        !is_nan(b),
    ensures
        !is_nan(fabs(b)),
        value(fabs(b)) == magnitude(b),
{
    assert(unsigned(fabs(b)) == unsigned(b));
    lemma_magnitude_order(fabs(b), b);
}

/// A factor of at most one makes nothing larger.
pub proof fn lemma_factor_shrinks(y: Bits, c: Bits)
    requires
        is_finite(y),
        is_finite(c),
        magnitude(y) <= pow2(149),
    ensures
        !is_nan(fmul(y, c)),
        magnitude(fmul(y, c)) <= magnitude(c),
{
    let num = magnitude(y) * magnitude(c);
    lemma_pow2_pos(149);
    lemma_ratio_pattern(num, pow2(149), negative(y) != negative(c));
    assert(num <= magnitude(c) * pow2(149)) by (nonlinear_arith)
        requires
            num == magnitude(y) * magnitude(c),
            magnitude(y) <= pow2(149),
    ;
    lemma_ratio_between(num, pow2(149), magnitude(c), 24);
    lemma_pattern_exact(c);
    lemma_magnitude_order(c, INFINITY);
    lemma_infinity();
    assert(unsigned(INFINITY) == INFINITY);
}

} // verus!
