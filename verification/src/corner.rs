//! Where the low-pass of the oversampler cuts: at one and the same frequency of the
//! original rate, whatever the factor.

use vstd::prelude::*;
use vstd::arithmetic::power2::*;
use crate::accuracy::{is_near, one, lemma_exact_product, lemma_exact_quotient, lemma_exact_sum, lemma_near_cancel, lemma_near_factor, lemma_near_magnitude, lemma_near_product, lemma_near_quotient, lemma_one, lemma_quotient_error, lemma_small_number};
use crate::arith::number;
use crate::curves::{grain, lemma_divided, lemma_sum_error, lemma_units};
use crate::dsp::lemma_absolute;
use crate::functions::{Function, gives};
use crate::oversample::{BETA, BILLIONTH, CORNER, HALF_TURN, Oversampler, TAPS_PER_PHASE, TURN, are_taps, is_factor, is_kaiser, is_lowpass, is_sinc, is_tap, phase_tap, scaled, tap_offset, window_place};
use crate::scalar::{fabs, fdiv, fmul, fsub, negated, lemma_negated};
use crate::single::{Bits, ONE, TWO, is_finite, last_digit, less, magnitude, negative, significand, unsigned, value, lemma_zero};

verus! {

/// Is `v` the number `x * a / b`, with the sign of `x`, for an `a` between two bounds?
pub open spec fn is_between(v: int, x: int, lo: int, hi: int, b: int) -> bool {
    if x >= 0 {
        x * lo <= v * b <= x * hi
    } else {
        x * hi <= v * b <= x * lo
    }
}

/// `v` is tap `k` of a windowed sinc of `64 * factor` taps that cuts at 0.45 of the
/// original rate, which is 0.45 / `factor` of the high one.
///
/// Twice the tap's distance from the middle of the kernel is a whole number `x`. The
/// sine is taken of `0.45 * pi * x / factor` and divided by `pi * x / 2`; the window
/// lies from minus one to one over all taps. `pi` is between 3.14159 and 3.1416.
pub open spec fn cuts_at_corner<M: Fn(Function, Bits) -> Bits>(m: &M, factor: nat, top: Bits, k: int, v: Bits) -> bool {
    let x = 2 * k - 64 * factor + 1;
    exists|angle: Bits, sine: Bits, by: Bits, place: Bits, root: Bits, b: Bits|
        #![trigger gives(m, Function::Sin, angle, sine), fdiv(sine, by), gives(m, Function::SquareRoot, fsub(ONE, fmul(place, place)), root), gives(m, Function::Bessel, fmul(BETA, root), b)]
        {
            &&& gives(m, Function::Sin, angle, sine)
            &&& gives(m, Function::SquareRoot, fsub(ONE, fmul(place, place)), root)
            &&& gives(m, Function::Bessel, fmul(BETA, root), b)
            &&& v == fmul(fdiv(sine, by), fdiv(b, top))
            &&& is_finite(angle) && is_finite(by) && is_finite(place)
            &&& is_between(value(angle), x * one(), 14137155, 14137200, 10000000 * factor as int)
            &&& is_between(value(by), x * one(), 314159, 314160, 200000)
            &&& -one() <= 0x1000 * (value(place) * (64 * factor - 1) - x * one()) <= one()
        }
}

/// The constants of the kernel, by their values.
proof fn lemma_kernel_constants()
    ensures
        is_finite(CORNER) && value(CORNER) == 0xe6_6666 * pow2(124),
        is_finite(TURN) && value(TURN) == 0xc9_0fdb * pow2(128),
        is_finite(HALF_TURN) && value(HALF_TURN) == 0xc9_0fdb * pow2(127),
        is_finite(TWO) && value(TWO) == 2 * one(),
        is_finite(ONE) && value(ONE) == one(),
        is_finite(BETA) && value(BETA) == 8 * one(),
        one() == 0x200_0000 * pow2(124),
        pow2(128) == 16 * pow2(124),
        pow2(127) == 8 * pow2(124),
        pow2(124) >= 0x1000_0000,
{
    lemma_one();
    lemma2_to64();
    lemma_pow2_adds(25, 124);
    lemma_pow2_adds(4, 124);
    lemma_pow2_adds(3, 124);
    lemma_pow2_adds(28, 96);
    lemma_pow2_pos(96);
    assert(unsigned(CORNER) == CORNER && last_digit(CORNER) == 124 && significand(CORNER) == 0xe6_6666) by {
        assert(unsigned(CORNER) / 0x80_0000 == 125);
    }
    assert(unsigned(TURN) == TURN && last_digit(TURN) == 128 && significand(TURN) == 0xc9_0fdb) by {
        assert(unsigned(TURN) / 0x80_0000 == 129);
    }
    assert(unsigned(HALF_TURN) == HALF_TURN && last_digit(HALF_TURN) == 127 && significand(HALF_TURN) == 0xc9_0fdb) by {
        assert(unsigned(HALF_TURN) / 0x80_0000 == 128);
    }
    lemma_pow2_adds(22, 127);
    assert(last_digit(TWO) == 127 && significand(TWO) == 0x80_0000);
    lemma_pow2_adds(23, 126);
    assert(last_digit(ONE) == 126 && significand(ONE) == 0x80_0000);
    lemma_pow2_adds(20, 129);
    assert(last_digit(BETA) == 129 && significand(BETA) == 0x80_0000);
}

/// A tap lies half a sample beside a whole number of them from the middle.
proof fn lemma_offset(factor: nat, k: nat)
    requires
        is_factor(factor as int),
        k < 64 * factor,
    ensures
        ({
            let x = 2 * k - 64 * factor + 1;
            let o = tap_offset(64 * factor, k);
            &&& is_finite(o)
            &&& 2 * value(o) == x * one()
            &&& 2 * magnitude(o) == (if x < 0 { -x } else { x }) * one()
            &&& negative(o) == (x < 0)
            &&& -511 <= x <= 511
            &&& x != 0
        }),
{
    lemma_one();
    lemma2_to64();
    lemma_kernel_constants();
    lemma_pow2_unfold(149);
    let u = one();
    let half = pow2(148) as int;
    let taps = 64 * factor;
    let n = (taps - 1) as nat;
    lemma_small_number(k);
    lemma_small_number(n);
    assert((n * u) * u == (n * half) * (2 * u)) by (nonlinear_arith)
        requires
            u == 2 * half,
    ;
    lemma_exact_quotient(number(n), TWO, n, 148);
    let middle = fdiv(number(n), TWO);
    let x = 2 * k - taps + 1;
    lemma_negated(middle);
    assert(k * u - n * half == x * half) by (nonlinear_arith)
        requires
            u == 2 * half,
            x == 2 * k - n,
    ;
    lemma_exact_sum(number(k), negated(middle), x, 148);
    let o = tap_offset(taps, k);
    assert(2 * (x * half) == x * u) by (nonlinear_arith)
        requires
            u == 2 * half,
    ;
    assert(x < 0 ==> x * half < 0) by (nonlinear_arith)
        requires
            half > 0,
    ;
    assert(x > 0 ==> x * half > 0) by (nonlinear_arith)
        requires
            half > 0,
    ;
    assert(-x * u == -(x * u)) by (nonlinear_arith);
}

/// The angle of the sine of a tap.
proof fn lemma_angle(factor: nat, k: nat)
    requires
        is_factor(factor as int),
        k < 64 * factor,
    ensures
        ({
            let x = 2 * k - 64 * factor + 1;
            let cutoff = fdiv(CORNER, number(factor));
            let angle = fmul(fmul(TURN, cutoff), tap_offset(64 * factor, k));
            &&& is_finite(angle)
            &&& is_between(value(angle), x * one(), 14137155, 14137200, 10000000 * factor as int)
            &&& is_near(value(cutoff), 9 * one(), 20 * factor as int, 2)
        }),
{
    lemma_one();
    lemma2_to64();
    lemma_kernel_constants();
    let u = one();
    let e = pow2(124) as int;
    let f = factor as int;
    let cv = value(CORNER);
    let tv = value(TURN);
    lemma_small_number(factor);
    lemma_zero(number(factor));
    // the corner, a factor-th of it
    lemma_pow2_adds(149, 127);
    lemma_pow2_strictly_increases(10, 127);
    assert(f * u <= 8 * u && f * u >= 2 * u);
    assert(cv * u >= (f * u) * 0x80_0000) by (nonlinear_arith)
        requires
            cv == 0xe6_6666 * e,
            e >= 0x1000_0000,
            f <= 8,
            u > 0,
    ;
    assert(cv * u <= (f * u) * pow2(276)) by (nonlinear_arith)
        requires
            cv == 0xe6_6666 * e,
            u == 0x200_0000 * e,
            pow2(276) == u * pow2(127),
            pow2(127) >= 1,
            f >= 2,
            e > 0,
    ;
    lemma_near_quotient(CORNER, number(factor));
    let cutoff = fdiv(CORNER, number(factor));
    let c = value(cutoff);
    lemma_near_cancel(c, cv, f, u, 1);
    assert(is_near(c, cv, f, 1));
    let cf = c * f;
    assert(-cv <= (cf - cv) * 0x100_0000 <= cv);
    assert(is_near(c, 9 * u, 20 * f, 2)) by {
        assert(c * (20 * f) == 20 * cf) by (nonlinear_arith)
            requires
                cf == c * f,
        ;
    }
    // times a turn
    assert(c >= 0x10_0000 * e && c <= 0x80_0000 * e) by (nonlinear_arith)
        requires
            -cv <= (c * f - cv) * 0x100_0000 <= cv,
            cv == 0xe6_6666 * e,
            2 <= f <= 8,
            e > 0,
    ;
    assert(tv * c >= u * 0x80_0000 && tv * c <= u * pow2(276) && c * tv == tv * c) by (nonlinear_arith)
        requires
            0x10_0000 * e <= c <= 0x80_0000 * e,
            tv == 0xc9_0fdb * (16 * e),
            u == 0x200_0000 * e,
            pow2(276) == u * pow2(127),
            pow2(127) >= 0x400,
            e >= 0x1000_0000,
    ;
    lemma_near_product(TURN, cutoff);
    let turn = fmul(TURN, cutoff);
    let t = value(turn);
    lemma_near_factor(c, cv, f, 1, t, tv, u, 1);
    assert(is_near(t, cv * tv, f * u, 3));
    assert(t * 0x20_0000 * 0x100_0000 >= (0xc9_0fdb * c) * 0xff_ffff && t * 0x20_0000 * 0x100_0000 <= (0xc9_0fdb * c)
        * 0x100_0001) by (nonlinear_arith)
        requires
            -(1 * (tv * c)) <= (t * u - tv * c) * 0x100_0000 <= 1 * (tv * c),
            tv == 0xc9_0fdb * (16 * e),
            u == 0x200_0000 * e,
            e > 0,
    ;
    assert(t >= 0x40_0000 * e && t <= 0x400_0000 * e);
    // times the offset
    lemma_offset(factor, k);
    let o = tap_offset(64 * factor, k);
    let x = 2 * k - 64 * factor + 1;
    let ax = if x < 0 { -x } else { x };
    let om = magnitude(o) as int;
    lemma_zero(turn);
    assert(magnitude(turn) == t);
    assert(ax * u >= u && ax * u <= 511 * u) by (nonlinear_arith)
        requires
            1 <= ax <= 511,
            u > 0,
    ;
    assert(t * om >= u * 0x80_0000) by (nonlinear_arith)
        requires
            t >= 0x100_0000,
            u <= 2 * om,
            u > 0,
    ;
    assert(t * om <= u * pow2(276)) by {
        assert(t <= 2 * u && om <= 256 * u);
        assert(t * om <= (2 * u) * (256 * u)) by (nonlinear_arith)
            requires
                0 <= t <= 2 * u,
                0 <= om <= 256 * u,
        ;
        assert((2 * u) * (256 * u) <= u * pow2(276)) by (nonlinear_arith)
            requires
                pow2(276) == u * pow2(127),
                pow2(127) >= 0x400,
                u > 0,
        ;
    }
    lemma_near_magnitude(turn, o);
    let angle = fmul(turn, o);
    let a = magnitude(angle) as int;
    assert(cv * tv >= 0 && f * u > 0) by (nonlinear_arith)
        requires
            cv == 0xe6_6666 * e,
            tv == 0xc9_0fdb * (16 * e),
            e > 0,
            f >= 2,
            u > 0,
    ;
    lemma_near_factor(t, cv * tv, f * u, 3, a, om, u, 1);
    assert(is_near(a, (cv * tv) * om, (f * u) * u, 5));
    // in whole numbers
    let y = ax * u;
    let af = a * f;
    let ee = e * e;
    let big: int = 0xe6_6666int * 0xc9_0fdb;
    assert(((cv * tv) * om) == (8 * (big * y)) * ee) by (nonlinear_arith)
        requires
            cv == 0xe6_6666 * e,
            tv == 0xc9_0fdb * (16 * e),
            big == 0xe6_6666 * 0xc9_0fdb,
            2 * om == y,
            ee == e * e,
    ;
    assert(a * ((f * u) * u) == (af * 0x4_0000_0000_0000) * ee) by (nonlinear_arith)
        requires
            af == a * f,
            u == 0x200_0000 * e,
            ee == e * e,
    ;
    assert(ee > 0) by (nonlinear_arith)
        requires
            ee == e * e,
            e > 0,
    ;
    let l = af * 0x4_0000_0000_0000;
    let p = 8 * (big * y);
    assert(-(5 * p) <= (l - p) * 0x100_0000 <= 5 * p) by {
        assert((l * ee - p * ee) * 0x100_0000 == ((l - p) * 0x100_0000) * ee && 5 * (p * ee) == (5 * p) * ee)
            by (nonlinear_arith);
        lemma_divided((l - p) * 0x100_0000, 5 * p, ee);
    }
    assert(big == 198962937041730);
    assert(big * y == 198962937041730 * y);
    assert(y >= 0);
    assert(14137155 * y <= af * 10000000 <= 14137200 * y);
    lemma_zero(angle);
    assert(x * u == (if x < 0 { -y } else { y })) by (nonlinear_arith)
        requires
            y == ax * u,
            ax == (if x < 0 { -x } else { x }),
    ;
    let v = value(angle);
    assert(v * (10000000 * f) == (if x < 0 { -(af * 10000000) } else { af * 10000000 })) by (nonlinear_arith)
        requires
            af == a * f,
            v == (if x < 0 { -a } else { a }),
    ;
    assert(x < 0 ==> x * u < 0) by (nonlinear_arith)
        requires
            u > 0,
    ;
}

/// What the sine of a tap is divided by.
proof fn lemma_divisor(factor: nat, k: nat)
    requires
        is_factor(factor as int),
        k < 64 * factor,
    ensures
        ({
            let x = 2 * k - 64 * factor + 1;
            let by = fmul(HALF_TURN, tap_offset(64 * factor, k));
            &&& is_finite(by)
            &&& is_between(value(by), x * one(), 314159, 314160, 200000)
        }),
{
    lemma_one();
    lemma2_to64();
    lemma_kernel_constants();
    lemma_pow2_adds(149, 127);
    lemma_pow2_strictly_increases(10, 127);
    lemma_offset(factor, k);
    let u = one();
    let e = pow2(124) as int;
    let hv = value(HALF_TURN);
    let o = tap_offset(64 * factor, k);
    let x = 2 * k - 64 * factor + 1;
    let ax = if x < 0 { -x } else { x };
    let om = magnitude(o) as int;
    let y = ax * u;
    assert(y >= u && y <= 511 * u) by (nonlinear_arith)
        requires
            y == ax * u,
            1 <= ax <= 511,
            u > 0,
    ;
    assert(magnitude(HALF_TURN) == hv);
    assert(hv * om >= u * 0x80_0000 && hv * om <= u * pow2(276)) by (nonlinear_arith)
        requires
            hv == 0xc9_0fdb * (8 * e),
            u <= 2 * om <= 511 * u,
            u == 0x200_0000 * e,
            pow2(276) == u * pow2(127),
            pow2(127) >= 0x400,
            e >= 0x1000_0000,
    ;
    lemma_near_magnitude(HALF_TURN, o);
    let by = fmul(HALF_TURN, o);
    let a = magnitude(by) as int;
    assert(hv * om == (0xc9_0fdb * 4 * y) * e && a * u == (a * 0x200_0000) * e) by (nonlinear_arith)
        requires
            hv == 0xc9_0fdb * (8 * e),
            2 * om == y,
            u == 0x200_0000 * e,
    ;
    let l = a * 0x200_0000;
    let p = 0xc9_0fdb * 4 * y;
    assert(-p <= (l - p) * 0x100_0000 <= p) by {
        assert((l * e - p * e) * 0x100_0000 == ((l - p) * 0x100_0000) * e && 1 * (p * e) == p * e) by (nonlinear_arith);
        lemma_divided((l - p) * 0x100_0000, p, e);
    }
    assert(314159 * y <= a * 200000 <= 314160 * y) by (nonlinear_arith)
        requires
            -p <= (l - p) * 0x100_0000 <= p,
            l == a * 0x200_0000,
            p == 0xc9_0fdb * 4 * y,
            y >= 0,
    ;
    assert(x * u == (if x < 0 { -y } else { y })) by (nonlinear_arith)
        requires
            y == ax * u,
            ax == (if x < 0 { -x } else { x }),
    ;
    assert(x < 0 ==> x * u < 0) by (nonlinear_arith)
        requires
            u > 0,
    ;
}

/// Where a tap lies in the window.
proof fn lemma_window_place(factor: nat, k: nat)
    requires
        is_factor(factor as int),
        k < 64 * factor,
    ensures
        ({
            let x = 2 * k - 64 * factor + 1;
            let place = window_place(64 * factor, k);
            &&& is_finite(place)
            &&& -one() <= 0x1000 * (value(place) * (64 * factor - 1) - x * one()) <= one()
        }),
{
    lemma_one();
    lemma_units();
    lemma2_to64();
    lemma_kernel_constants();
    let u = one();
    let g = grain();
    let taps = 64 * factor;
    let n = (taps - 1) as nat;
    lemma_small_number(k);
    lemma_small_number(taps);
    assert((2 * u) * (k * u) == ((2 * k) * u) * u) by (nonlinear_arith);
    lemma_exact_product(TWO, number(k), 2 * k, 149);
    let twice = fmul(TWO, number(k));
    lemma_negated(ONE);
    assert(taps * u - u == n * u) by (nonlinear_arith)
        requires
            n == taps - 1,
    ;
    lemma_exact_sum(number(taps), negated(ONE), n as int, 149);
    let by = fsub(number(taps), ONE);
    lemma_zero(by);
    assert(n * u > 0) by (nonlinear_arith)
        requires
            n >= 1,
            u > 0,
    ;
    // the quotient
    assert(((2 * k) * u) * u <= (n * u) * pow2(275)) by {
        lemma_pow2_adds(10, 149);
        lemma_pow2_strictly_increases(159, 275);
        assert(((2 * k) * u) * u <= (n * u) * pow2(275)) by (nonlinear_arith)
            requires
                2 * k <= 0x400,
                n >= 1,
                0x400 * u <= pow2(275),
                u > 0,
        ;
    }
    lemma_quotient_error(twice, by);
    let q = value(fdiv(twice, by));
    let d: int = 0x100_0000;
    let kk = 2 * k as int;
    assert(-((kk + n) * g) <= q * n - kk * u <= (kk + n) * g) by {
        assert((q * (n * u) - (kk * u) * u) * d == ((q * n - kk * u) * d) * u) by (nonlinear_arith);
        assert((kk * u) * u + (n * u) * d == (kk * u + n * d) * u) by (nonlinear_arith);
        lemma_divided((q * n - kk * u) * d, kk * u + n * d, u);
        assert(kk * u + n * d <= ((kk + n) * g) * d) by (nonlinear_arith)
            requires
                u == g * d,
                g >= 1,
                n >= 0,
                d > 0,
        ;
        let z = q * n - kk * u;
        let w = (kk + n) * g;
        assert(-w <= z <= w) by (nonlinear_arith)
            requires
                -(w * d) <= z * d <= w * d,
                d > 0,
        ;
    }
    assert(0 <= q <= 3 * u) by (nonlinear_arith)
        requires
            q >= 0,
            q * n - kk * u <= (kk + n) * g,
            kk <= 2 * n,
            n >= 1,
            u == g * 0x100_0000,
            g >= 1,
    ;
    // less one
    lemma_sum_error(fdiv(twice, by), negated(ONE), 2);
    let v = value(window_place(taps, k));
    let x = kk - n;
    assert(-(3 * g) <= v - (q - u) <= 3 * g);
    assert(x * u == kk * u - n * u) by (nonlinear_arith)
        requires
            x == kk - n,
    ;
    let w = v - (q - u);
    assert(v * n - x * u == (q * n - kk * u) + w * n) by (nonlinear_arith)
        requires
            w == v - (q - u),
            x * u == kk * u - n * u,
    ;
    assert(-((3 * g) * n) <= w * n <= (3 * g) * n) by (nonlinear_arith)
        requires
            -(3 * g) <= w <= 3 * g,
            n >= 0,
    ;
    assert((kk + n) * g + (3 * g) * n <= 0x1000 * g) by (nonlinear_arith)
        requires
            kk <= 1022,
            n <= 511,
            g >= 1,
    ;
    assert(0x1000 * (0x1000 * g) == u);
}

/// Every tap is that of a low-pass that cuts at 0.45 of the original rate.
proof fn lemma_tap<M: Fn(Function, Bits) -> Bits>(m: &M, factor: nat, top: Bits, k: nat, v: Bits)
    requires
        is_factor(factor as int),
        k < 64 * factor,
        is_tap(m, 64 * factor, fdiv(CORNER, number(factor)), BETA, top, k, v),
    ensures
        cuts_at_corner(m, factor, top, k as int, v),
{
    let taps = 64 * factor;
    let cutoff = fdiv(CORNER, number(factor));
    let o = tap_offset(taps, k);
    let (s, w) = choose|s: Bits, w: Bits|
        #![trigger is_sinc(m, cutoff, o, s), is_kaiser(m, BETA, top, window_place(taps, k), w)]
        {
            &&& is_sinc(m, cutoff, o, s)
            &&& is_kaiser(m, BETA, top, window_place(taps, k), w)
            &&& v == fmul(s, w)
        };
    lemma_offset(factor, k);
    lemma_one();
    let x = 2 * k - taps + 1;
    assert(!less(fabs(o), BILLIONTH)) by {
        lemma_absolute(o);
        lemma2_to64();
        assert(unsigned(BILLIONTH) == BILLIONTH && last_digit(BILLIONTH) == 96 && significand(BILLIONTH) == 0x89_705f) by {
            assert(unsigned(BILLIONTH) / 0x80_0000 == 97);
        }
        lemma_pow2_adds(24, 96);
        lemma_pow2_adds(25, 124);
        lemma_pow2_strictly_increases(120, 124);
        let ax = if x < 0 { -x } else { x };
        assert(ax * one() >= one()) by (nonlinear_arith)
            requires
                ax >= 1,
                one() > 0,
        ;
    }
    let angle = fmul(fmul(TURN, cutoff), o);
    let by = fmul(HALF_TURN, o);
    let sine = choose|sine: Bits| #[trigger] gives(m, Function::Sin, angle, sine) && s == fdiv(sine, by);
    let place = window_place(taps, k);
    let (root, b) = choose|root: Bits, b: Bits|
        #![trigger gives(m, Function::SquareRoot, fsub(ONE, fmul(place, place)), root), gives(m, Function::Bessel, fmul(BETA, root), b)]
        {
            &&& gives(m, Function::SquareRoot, fsub(ONE, fmul(place, place)), root)
            &&& gives(m, Function::Bessel, fmul(BETA, root), b)
            &&& w == fdiv(b, top)
        };
    lemma_angle(factor, k);
    lemma_divisor(factor, k);
    lemma_window_place(factor, k);
    assert(gives(m, Function::Sin, angle, sine));
    assert(gives(m, Function::SquareRoot, fsub(ONE, fmul(place, place)), root) && gives(
        m,
        Function::Bessel,
        fmul(BETA, root),
        b,
    ));
    assert(v == fmul(fdiv(sine, by), fdiv(b, top)));
}

/// The low-pass of an oversampler cuts at one and the same frequency of the original
/// rate, 0.45 of it, whatever the factor: its taps are those of a sinc of that
/// frequency, so that a sound below it passes and one above it does not.
pub proof fn law_corner_of_every_factor<M: Fn(Function, Bits) -> Bits>(m: &M, o: Oversampler, factor: nat)
    requires
        o.is_for(m, factor),
    ensures
        exists|top: Bits, h: Seq<Bits>|
            #![trigger gives(m, Function::Bessel, BETA, top), scaled(h)]
            {
                &&& gives(m, Function::Bessel, BETA, top)
                &&& value(BETA) == 8 * one()
                &&& h.len() == 64 * factor
                &&& forall|k: int| 0 <= k < 64 * factor ==> cuts_at_corner(m, factor, top, k, #[trigger] h[k])
                &&& forall|i: int, k: int|
                    0 <= i < factor && 0 <= k < 64 ==> (#[trigger] o.phases@[i]@[k]) == fmul(
                        scaled(h)[k * factor + i],
                        number(factor),
                    )
            },
{
    let cutoff = fdiv(CORNER, number(factor));
    let taps = TAPS_PER_PHASE as nat * factor;
    let kernel = choose|kernel: Seq<Bits>| #[trigger] is_lowpass(m, taps, cutoff, BETA, kernel) && o.splits(kernel);
    let (top, h) = choose|top: Bits, h: Seq<Bits>|
        #![trigger gives(m, Function::Bessel, BETA, top), scaled(h)]
        {
            &&& gives(m, Function::Bessel, BETA, top)
            &&& are_taps(m, taps, cutoff, BETA, top, h)
            &&& kernel == scaled(h)
        };
    assert forall|k: int| 0 <= k < 64 * factor implies cuts_at_corner(m, factor, top, k, #[trigger] h[k]) by {
        assert(is_tap(m, taps, cutoff, BETA, top, k as nat, h[k]));
        lemma_tap(m, factor, top, k as nat, h[k]);
    }
    assert forall|i: int, k: int| 0 <= i < factor && 0 <= k < 64 implies (#[trigger] o.phases@[i]@[k]) == fmul(
        scaled(h)[k * factor + i],
        number(factor),
    ) by {
        assert(o.phases@[i]@[k] == phase_tap(kernel, o.factor as nat, i, k));
    }
    lemma_kernel_constants();
    assert(gives(m, Function::Bessel, BETA, top) && kernel == scaled(h));
}

} // verus!
