//! The windows of the spectra: where in its turn a cosine stands at each place, how the
//! windows are made of cosines, and that a steady tone is shown with its power.

use vstd::prelude::*;
use vstd::arithmetic::power2::*;
use crate::accuracy::{fine, is_near, one, lemma_difference_off, lemma_fine, lemma_near_difference, lemma_near_product, lemma_near_quotient, lemma_one, lemma_product_off, lemma_small_number, lemma_sum_off, lemma_whole_ratio};
use crate::arith::number;
use crate::envelope::channel_sum;
use crate::fft::SPECTRUM_AVG_FRAMES;
use crate::functions::{Function, gives};
use crate::heights::lemma_ends;
use crate::oversample::TURN;
use crate::scalar::{fadd, fdiv, fmul, fsub, lemma_negated, negated};
use crate::single::{Bits, HALF, ONE, TWO, is_finite, last_digit, negative, significand, unsigned, value, lemma_zero};
use crate::spectra::{HARRIS_0, HARRIS_1, HARRIS_2, HARRIS_3, gathered, harris_of, is_hann_at, window_angle, window_scale};
use crate::weights::lemma_after_nothing;

verus! {

proof fn lemma_turn()
    ensures
        is_finite(TURN),
        !negative(TURN),
        628_318 * one() <= 100_000 * value(TURN) <= 628_319 * one(),
{
    lemma_one();
    lemma2_to64();
    lemma_pow2_adds(22, 127);
    lemma_pow2_adds(1, 127);
    let b = pow2(127) as int;
    assert(one() == 0x40_0000 * b);
    assert(unsigned(TURN) == TURN && !negative(TURN));
    assert(last_digit(TURN) == 128 && significand(TURN) == 0xc9_0fdb);
    assert(value(TURN) == 0xc9_0fdb * (2 * b));
}

/// A window is one turn long: place `i` of `n` stands `i` parts of `n - 1` into the turn,
/// up to rounding, a turn being between 6.28318 and 6.28319.
pub proof fn law_window_is_one_turn(n: nat, i: nat)
    requires
        1 <= i < n <= 0x10_0000,
    ensures
        ({
            let a = value(window_angle(n, i));
            let part = i * one();
            628_317 * part <= 100_000 * (a * (n - 1)) <= 628_320 * part
        }),
{
    lemma_one();
    lemma_fine();
    lemma_turn();
    let u = one();
    let k = (n - 1) as nat;
    lemma_whole_ratio(i, k);
    let q = fdiv(number(i), number(k));
    let x = value(q);
    let m = k as int;
    let p = i * u;
    let turn = value(TURN);
    let w = pow2(276) as int;
    assert(x <= 2 * u && 0x40_0000 * x >= u) by (nonlinear_arith)
        requires
            -(8 * p) <= (x * m - p) * 0x100_0000 <= 8 * p,
            p == i * u,
            1 <= i <= m <= 0x10_0000,
            u > 0,
    ;
    assert(turn * x >= u * 0x80_0000 && turn * x <= u * w) by (nonlinear_arith)
        requires
            6 * u <= turn <= 7 * u,
            0x40_0000 * x >= u,
            x <= 2 * u,
            u >= 0x1_0000_0000_0000,
            u * 0x1_0000_0000 <= w,
    ;
    lemma_near_product(TURN, q);
    let a = value(window_angle(n, i));
    let t = turn * x;
    // x * m is i * u, and a * u is turn * x, up to rounding
    let y = x * m;
    let z = a * m;
    assert(z * u * 0x100_0000 <= (turn * y) * 0x100_0001 && (turn * y) * 0xff_ffff <= z * u * 0x100_0000) by {
        assert(t * m == turn * y) by (nonlinear_arith)
            requires
                t == turn * x,
                y == x * m,
        ;
        assert((a * u) * m == z * u) by (nonlinear_arith)
            requires
                z == a * m,
        ;
        let b = a * u;
        assert((b * m) * 0x100_0000 <= (t * m) * 0x100_0001 && (t * m) * 0xff_ffff <= (b * m) * 0x100_0000)
            by (nonlinear_arith)
            requires
                -(1 * t) <= (b - t) * 0x100_0000 <= 1 * t,
                m > 0,
        ;
    }
    let v = turn * y;
    let g = turn * p;
    assert(v * 0x100_0000 <= g * 0x100_0008 && g * 0xff_fff8 <= v * 0x100_0000) by (nonlinear_arith)
        requires
            -(8 * p) <= (y - p) * 0x100_0000 <= 8 * p,
            v == turn * y,
            g == turn * p,
            turn > 0,
    ;
    let h = u * p;
    assert(h > 0) by (nonlinear_arith)
        requires
            h == u * p,
            p == i * u,
            i >= 1,
            u > 0,
    ;
    assert(628_318 * h <= 100_000 * g <= 628_319 * h) by (nonlinear_arith)
        requires
            628_318 * u <= 100_000 * turn <= 628_319 * u,
            g == turn * p,
            h == u * p,
            p >= 0,
    ;
    let zu = z * u;
    assert(zu * 0x100_0000 <= v * 0x100_0001 && v * 0xff_ffff <= zu * 0x100_0000);
    assert(628_317 * h <= 100_000 * zu <= 628_320 * h);
    assert(628_317 * p <= 100_000 * z <= 628_320 * p) by (nonlinear_arith)
        requires
            628_317 * h <= 100_000 * zu <= 628_320 * h,
            h == u * p,
            zu == z * u,
            u > 0,
    ;
}

/// A Hann window is half of one minus the cosine, up to rounding.
pub proof fn law_hann_is_raised_cosine<M: Fn(Function, Bits) -> Bits>(m: &M, n: nat, i: nat, v: Bits)
    requires
        is_hann_at(m, n, i, v),
        forall|c: Bits| #[trigger]
            gives(m, Function::Cos, window_angle(n, i), c) ==> is_finite(c) && -one() <= value(c) <= one(),
    ensures
        exists|c: Bits| #[trigger]
            gives(m, Function::Cos, window_angle(n, i), c) && -(16 * fine()) <= 2 * value(v) - (one() - value(c)) <= 16
                * fine(),
{
    lemma_fine();
    lemma_ends();
    lemma_one();
    lemma2_to64();
    lemma_pow2_adds(1, 148);
    lemma_pow2_adds(23, 125);
    let u = one();
    let g = fine();
    let c = choose|c: Bits| #[trigger]
        gives(m, Function::Cos, window_angle(n, i), c) && v == fmul(HALF, fsub(ONE, c));
    assert(is_finite(c) && -u <= value(c) <= u);
    lemma_difference_off(ONE, c, 2);
    let d = fsub(ONE, c);
    let x = value(d);
    let h = value(HALF);
    assert(unsigned(HALF) == HALF && !negative(HALF));
    assert(last_digit(HALF) == 125 && significand(HALF) == 0x80_0000);
    assert(2 * h == u);
    assert(-(2 * (u * u)) <= h * x <= 2 * (u * u)) by (nonlinear_arith)
        requires
            2 * h == u,
            -(3 * u) <= x <= 3 * u,
            u > 0,
    ;
    lemma_product_off(HALF, d, 2);
    let y = value(v);
    assert(-(6 * g) <= 2 * y - x <= 6 * g) by (nonlinear_arith)
        requires
            -(3 * (g * u)) <= y * u - h * x <= 3 * (g * u),
            2 * h == u,
            u > 0,
    ;
}

proof fn lemma_harris()
    ensures
        is_finite(HARRIS_0) && is_finite(HARRIS_1) && is_finite(HARRIS_2) && is_finite(HARRIS_3),
        -one() <= 1_000_000 * value(HARRIS_0) - 358_750 * one() <= one(),
        -one() <= 1_000_000 * value(HARRIS_1) - 488_290 * one() <= one(),
        -one() <= 1_000_000 * value(HARRIS_2) - 141_280 * one() <= one(),
        -one() <= 1_000_000 * value(HARRIS_3) - 11_680 * one() <= one(),
{
    lemma_one();
    lemma2_to64();
    lemma_pow2_adds(30, 119);
    lemma_pow2_adds(4, 119);
    lemma_pow2_adds(5, 119);
    let b = pow2(119) as int;
    assert(one() == 0x4000_0000 * b);
    assert(unsigned(HARRIS_0) == HARRIS_0 && !negative(HARRIS_0));
    assert(last_digit(HARRIS_0) == 124 && significand(HARRIS_0) == 0xb7_ae14);
    assert(unsigned(HARRIS_1) == HARRIS_1 && !negative(HARRIS_1));
    assert(last_digit(HARRIS_1) == 124 && significand(HARRIS_1) == 0xfa_0126);
    assert(unsigned(HARRIS_2) == HARRIS_2 && !negative(HARRIS_2));
    assert(last_digit(HARRIS_2) == 123 && significand(HARRIS_2) == 0x90_abb4);
    assert(unsigned(HARRIS_3) == HARRIS_3 && !negative(HARRIS_3));
    assert(last_digit(HARRIS_3) == 119 && significand(HARRIS_3) == 0xbf_5d79);
}

/// A cosine times its share.
proof fn lemma_term(h: Bits, c: Bits, k: int)
    requires
        is_finite(h) && is_finite(c),
        0 <= k <= 1_000_000,
        -one() <= 1_000_000 * value(h) - k * one() <= one(),
        -one() <= value(c) <= one(),
    ensures
        is_finite(fmul(h, c)),
        -(3 * one()) <= 1_000_000 * value(fmul(h, c)) - k * value(c) <= 3 * one(),
        -(2 * one()) <= value(fmul(h, c)) <= 2 * one(),
{
    lemma_fine();
    let u = one();
    let g = fine();
    let x = value(h);
    let y = value(c);
    assert(-u <= x <= 2 * u) by (nonlinear_arith)
        requires
            -u <= 1_000_000 * x - k * u <= u,
            0 <= k <= 1_000_000,
            u > 0,
    ;
    assert(-(2 * (u * u)) <= x * y <= 2 * (u * u)) by (nonlinear_arith)
        requires
            -u <= x <= 2 * u,
            -u <= y <= u,
            u > 0,
    ;
    lemma_product_off(h, c, 2);
    let p = value(fmul(h, c));
    // the share times the cosine, in millionths
    assert(-(u * u) <= 1_000_000 * (x * y) - (k * u) * y <= u * u) by (nonlinear_arith)
        requires
            -u <= 1_000_000 * x - k * u <= u,
            -u <= y <= u,
            u > 0,
    ;
    assert((k * u) * y == (k * y) * u) by (nonlinear_arith);
    assert(3_000_000 * (g * u) <= u * u) by (nonlinear_arith)
        requires
            u == g * 0x100_0000,
            g > 0,
    ;
    let q = 1_000_000 * p - k * y;
    assert(q * u == 1_000_000 * (p * u) - (k * y) * u) by (nonlinear_arith)
        requires
            q == 1_000_000 * p - k * y,
    ;
    assert(-(3 * u) <= q <= 3 * u) by (nonlinear_arith)
        requires
            -(2 * (u * u)) <= q * u <= 2 * (u * u),
            u > 0,
    ;
    assert(-(2 * u) <= p <= 2 * u) by (nonlinear_arith)
        requires
            -(3 * u) <= 1_000_000 * p - k * y <= 3 * u,
            0 <= k <= 1_000_000,
            -u <= y <= u,
            u > 0,
    ;
}

/// The window of the spectrum is that of Blackman and Harris: 0.35875, less 0.48829 times
/// the cosine, plus 0.14128 times that of the double angle, less 0.01168 times that of the
/// triple one, up to a part in fifty thousand.
pub proof fn law_harris_is_sum_of_cosines(c1: Bits, c2: Bits, c3: Bits)
    requires
        is_finite(c1) && is_finite(c2) && is_finite(c3),
        -one() <= value(c1) <= one(),
        -one() <= value(c2) <= one(),
        -one() <= value(c3) <= one(),
    ensures
        ({
            let wanted = 358_750 * one() - 488_290 * value(c1) + 141_280 * value(c2) - 11_680 * value(c3);
            -(20 * one()) <= 1_000_000 * value(harris_of(c1, c2, c3)) - wanted <= 20 * one()
        }),
{
    lemma_fine();
    lemma_harris();
    let u = one();
    lemma_term(HARRIS_1, c1, 488_290);
    lemma_term(HARRIS_2, c2, 141_280);
    lemma_term(HARRIS_3, c3, 11_680);
    let a = fmul(HARRIS_1, c1);
    let b = fmul(HARRIS_2, c2);
    let c = fmul(HARRIS_3, c3);
    lemma_difference_off(HARRIS_0, a, 4);
    let x = fsub(HARRIS_0, a);
    lemma_sum_off(x, b, 8);
    let y = fadd(x, b);
    lemma_difference_off(y, c, 12);
    assert(1_000_000 * fine() <= u);
    assert(16 * (1_000_000 * fine()) <= u * 16);
    assert(-(5 * fine()) <= value(x) - (value(HARRIS_0) - value(a)) <= 5 * fine());
    assert(-(9 * fine()) <= value(y) - (value(x) + value(b)) <= 9 * fine());
    assert(0x100_0000 * fine() == u);
}

// ---- Steady tones -----------------------------------------------------------

proof fn lemma_gathered(mags: Seq<Vec<Bits>>, scale: Bits, j: int, k: int, v: Bits)
    requires
        1 <= k <= 16,
        k <= mags.len(),
        forall|i: int| 0 <= i < k ==> fmul((#[trigger] mags[i])@[j], scale) == v,
        is_finite(fmul(v, v)),
        0x100_0000 <= value(fmul(v, v)) <= 0x100_0000_0000 * one(),
    ensures
        is_finite(gathered(mags, scale, j, k)),
        is_near(value(gathered(mags, scale, j, k)), k * value(fmul(v, v)), 1, 3 * k),
    decreases k,
{
    lemma_one();
    lemma_zero(0);
    let p = fmul(v, v);
    let x = value(p);
    assert(fmul(mags[k - 1]@[j], scale) == v);
    if k == 1 {
        assert(is_finite(0) && value(0) == 0);
        assert(gathered(mags, scale, j, 0) == 0);
        lemma_after_nothing(0, p);
        assert(is_near(x, 1 * x, 1, 3));
    } else {
        lemma_gathered(mags, scale, j, k - 1, v);
        let a = gathered(mags, scale, j, k - 1);
        let y = value(a);
        let n = k - 1;
        assert(0 <= y <= 32 * x) by (nonlinear_arith)
            requires
                -((3 * n) * (n * x)) <= (y * 1 - n * x) * 0x100_0000 <= (3 * n) * (n * x),
                1 <= n <= 15,
                x > 0,
        ;
        lemma_negated(p);
        assert(negated(negated(p)) == p);
        lemma_near_difference(a, negated(p));
        let z = value(fadd(a, p));
        assert(is_near(z, y + x, 1, 2));
        assert(-((3 * k) * (k * x)) <= (z * 1 - k * x) * 0x100_0000 <= (3 * k) * (k * x)) by (nonlinear_arith)
            requires
                -((3 * n) * (n * x)) <= (y * 1 - n * x) * 0x100_0000 <= (3 * n) * (n * x),
                -(2 * (y + x)) <= (z * 1 - (y + x)) * 0x100_0000 <= 2 * (y + x),
                k == n + 1,
                1 <= n <= 15,
                x > 0,
        ;
    }
}

/// A steady tone keeps its power: where all blocks around the probe have the same
/// amplitude, the mean of their powers is the square of it, up to rounding.
pub proof fn law_steady_tone_keeps_power(mags: Seq<Vec<Bits>>, scale: Bits, j: int, v: Bits)
    requires
        mags.len() == SPECTRUM_AVG_FRAMES,
        forall|i: int| 0 <= i < mags.len() ==> fmul((#[trigger] mags[i])@[j], scale) == v,
        is_finite(v),
        one() <= 0x1_0000 * value(v),
        value(v) <= 0x1_0000 * one(),
    ensures
        ({
            let power = fmul(gathered(mags, scale, j, 4), fdiv(ONE, number(4)));
            is_near(value(power), value(v) * value(v), one(), 20)
        }),
{
    lemma_one();
    lemma_fine();
    lemma_ends();
    let u = one();
    let x = value(v);
    let w = pow2(276) as int;
    lemma_large();
    assert(x * x >= u * 0x80_0000) by (nonlinear_arith)
        requires
            u <= 0x1_0000 * x,
            u >= 0x1_0000_0000_0000_0000,
    ;
    assert(x * x <= u * w) by (nonlinear_arith)
        requires
            0 < x <= 0x1_0000 * u,
            u * 0x1_0000_0000 <= w,
            u > 0,
    ;
    lemma_near_product(v, v);
    let p = value(fmul(v, v));
    let s = x * x;
    assert(0x1_0000 * p >= 1 && p <= 0x100_0000_0000 * u && 0x2_0000_0000 * p >= u) by (nonlinear_arith)
        requires
            -(1 * s) <= (p * u - s) * 0x100_0000 <= 1 * s,
            s == x * x,
            u <= 0x1_0000 * x,
            x <= 0x1_0000 * u,
            u > 0,
    ;
    assert(p >= 0x100_0000);
    lemma_gathered(mags, scale, j, 4, v);
    let a = gathered(mags, scale, j, 4);
    let y = value(a);
    lemma_small_number(4);
    lemma2_to64();
    lemma_pow2_adds(2, 147);
    let b = pow2(147) as int;
    assert(u == 4 * b);
    assert(u * u == (1nat * pow2(147)) * (4 * u)) by (nonlinear_arith)
        requires
            u == 4 * b,
            b == pow2(147),
    ;
    crate::accuracy::lemma_exact_quotient(ONE, number(4), 1, 147);
    let q = fdiv(ONE, number(4));
    assert(value(q) == b);
    assert(3 * p <= y <= 5 * p);
    assert(y * b >= u * 0x80_0000 && y * b <= u * w) by (nonlinear_arith)
        requires
            u == 4 * b,
            y >= 0x200_0000,
            y <= 0x1000_0000_0000 * u,
            u * 0x1000_0000_0000 <= w,
            b > 0,
    ;
    lemma_near_product(a, q);
    let z = value(fmul(a, q));
    let yb = y * b;
    // four times the result is what was gathered
    assert(-y <= (4 * z - y) * 0x100_0000 <= y) by (nonlinear_arith)
        requires
            -(1 * yb) <= (z * u - yb) * 0x100_0000 <= 1 * yb,
            yb == y * b,
            u == 4 * b,
            b > 0,
    ;
    assert(-(16 * p) <= (z - p) * 0x100_0000 <= 16 * p);
    let zu = z * u;
    let pu = p * u;
    assert(-(16 * pu) <= (zu - pu) * 0x100_0000 <= 16 * pu) by (nonlinear_arith)
        requires
            -(16 * p) <= (z - p) * 0x100_0000 <= 16 * p,
            zu == z * u,
            pu == p * u,
            u > 0,
    ;
    assert(s >= 0) by (nonlinear_arith)
        requires
            s == x * x,
    ;
}

/// One is very many units.
pub proof fn lemma_large()
    ensures
        one() >= 0x1_0000_0000_0000_0000,
{
    lemma_one();
    lemma2_to64();
    lemma_pow2_strictly_increases(64, 149);
}

/// Amplitudes are measured by the window: its scale is two over the sum of its places, up
/// to rounding, so that a tone of half the sum in a bin shows as one.
pub proof fn law_window_measures_amplitude(window: Seq<Bits>)
    requires
        is_finite(channel_sum(window, 0, window.len() as int)),
        one() <= value(channel_sum(window, 0, window.len() as int)) <= 0x1_0000 * one(),
    ensures
        is_near(
            value(window_scale(window)),
            2 * (one() * one()),
            value(channel_sum(window, 0, window.len() as int)),
            1,
        ),
{
    lemma_one();
    lemma_fine();
    lemma_ends();
    let u = one();
    let total = channel_sum(window, 0, window.len() as int);
    let s = value(total);
    let least: Bits = 0x3089_705f;
    lemma2_to64();
    lemma_pow2_adds(24, 96);
    lemma_pow2_strictly_increases(120, 149);
    assert(unsigned(least) == least && !negative(least));
    assert(last_digit(least) == 96 && significand(least) == 0x89_705f);
    assert(value(least) < u);
    assert(window_scale(window) == fdiv(TWO, total));
    let w = pow2(276) as int;
    assert((2 * u) * u >= s * 0x80_0000 && (2 * u) * u <= s * w) by (nonlinear_arith)
        requires
            u <= s <= 0x1_0000 * u,
            u >= 0x1_0000_0000_0000,
            u * 2 <= w,
    ;
    lemma_near_quotient(TWO, total);
    assert((2 * u) * u == 2 * (u * u)) by (nonlinear_arith);
}

} // verus!
