//! The outline of a zoomed-out waveform: how far a loud column shows once the columns are
//! smoothed, and how much of its peak a column lost.

use vstd::prelude::*;
use vstd::arithmetic::power2::*;
use crate::accuracy::{fine, one, lemma_difference_rounds, lemma_exact, lemma_exact_quotient, lemma_exact_sum, lemma_fine, lemma_one, lemma_product_error, lemma_product_off, lemma_quotient_error, lemma_sum_off};
use crate::arith::{abs, lemma_infinity, lemma_ratio_pattern};
use crate::columns::{column_frames, gathered, smoothed_at};
use crate::detect::top;
use crate::display::column_loss;
use crate::heights::lemma_ends;
use crate::impulse::is_impulse;
use crate::rounding::lemma_ratio_between;
use crate::scalar::{fdiv, fmul, fsub, lemma_negated, negated};
use crate::shown::lemma_nothing_times;
use crate::single::{Bits, HALF, INFINITY, ONE, is_finite, last_digit, magnitude, negative, significand, unsigned, value, lemma_magnitude_order, lemma_zero};
use crate::transfer::lemma_times_one;
use crate::weights::lemma_after_nothing;

verus! {

// ---- Smoothing --------------------------------------------------------------

/// The weights of a smoothing: as many on each side, all positive, none above one.
pub open spec fn is_kernel_of(kernel: Seq<Bits>, reach: nat) -> bool {
    &&& kernel.len() == 2 * reach + 1
    &&& reach <= 4
    &&& forall|k: int|
        0 <= k < kernel.len() ==> is_finite(#[trigger] kernel[k]) && one() <= 1024 * value(kernel[k]) && value(kernel[k])
            <= one()
}

/// How many of the first `n` weights fall on a column.
pub open spec fn falling(len: nat, reach: nat, i: int, n: int) -> int
    decreases n,
{
    if n <= 0 {
        0
    } else {
        falling(len, reach, i, n - 1) + if 0 <= i + n - 1 - reach < len {
            1int
        } else {
            0
        }
    }
}

proof fn lemma_gathered(raw: Seq<Bits>, kernel: Seq<Bits>, reach: nat, i: int, n: int, p: int)
    requires
        is_impulse(raw, p),
        is_kernel_of(kernel, reach),
        0 <= i < raw.len(),
        0 <= n <= kernel.len(),
    ensures
        ({
            let (total, weight, extreme) = gathered(raw, kernel, reach, i, n, true);
            let c = falling(raw.len(), reach, i, n);
            let at = p - i + reach;
            &&& 0 <= c <= n
            &&& is_finite(total) && value(total) == if 0 <= at < n {
                value(kernel[at])
            } else {
                0
            }
            &&& is_finite(weight) && c * one() <= 2048 * value(weight) && value(weight) <= (2 * n) * one()
            &&& c == 0 ==> extreme == 0xff80_0000u32
            &&& c > 0 ==> is_finite(extreme) && value(extreme) == if 0 <= at < n {
                one()
            } else {
                0
            }
        }),
    decreases n,
{
    lemma_ends();
    lemma_fine();
    lemma_one();
    lemma_infinity();
    let u = one();
    let g = fine();
    if n > 0 {
        lemma_gathered(raw, kernel, reach, i, n - 1, p);
        let (total, weight, extreme) = gathered(raw, kernel, reach, i, n - 1, true);
        let here = i + n - 1 - reach;
        let c = falling(raw.len(), reach, i, n - 1);
        if 0 <= here < raw.len() {
            let v = raw[here];
            let w = kernel[n - 1];
            assert(is_finite(w) && u <= 1024 * value(w) && value(w) <= u);
            let at = p - i + reach;
            let low: Bits = 0xff80_0000;
            assert(unsigned(low) == INFINITY && unsigned(INFINITY) == INFINITY && negative(low));
            lemma_magnitude_order(v, low);
            lemma_zero(low);
            if here == p {
                assert(v == ONE);
                lemma_times_one(w);
                lemma_after_nothing(total, fmul(v, w));
            } else {
                assert(v == 0);
                lemma_nothing_times(v, w);
                lemma_after_nothing(fmul(v, w), total);
            }
            assert((2 * n) * u == (2 * (n - 1)) * u + 2 * u) by (nonlinear_arith);
            assert(c * u >= 0) by (nonlinear_arith)
                requires
                    c >= 0,
                    u > 0,
            ;
            assert(0 <= value(weight) + value(w) <= (2 * n) * u);
            lemma_sum_off(weight, w, 2 * n);
            assert(2 * n + 1 <= 19);
            assert((2 * n + 1) * g <= 19 * g) by (nonlinear_arith)
                requires
                    2 * n + 1 <= 19,
                    g > 0,
            ;
            assert((c + 1) * u == c * u + u) by (nonlinear_arith);
        } else {
            assert((2 * (n - 1)) * u <= (2 * n) * u) by (nonlinear_arith)
                requires
                    u > 0,
            ;
        }
    }
}

proof fn lemma_falls_on_itself(len: nat, reach: nat, i: int, n: int)
    requires
        0 <= i < len,
        reach < n,
    ensures
        falling(len, reach, i, n) >= 1,
    decreases n,
{
    if n > reach + 1 {
        lemma_falls_on_itself(len, reach, i, n - 1);
    } else {
        lemma_falling(len, reach, i, n - 1);
    }
}

proof fn lemma_falling(len: nat, reach: nat, i: int, n: int)
    ensures
        falling(len, reach, i, n) >= 0,
    decreases n,
{
    if n > 0 {
        lemma_falling(len, reach, i, n - 1);
    }
}

/// Smoothing keeps loud columns in sight: a single loud column shows at least half as high
/// in its neighbourhood, as far as the smoothing reaches to both sides, up to a
/// thousandth, and leaves all other columns silent.
pub proof fn law_smoothing_keeps_peaks(raw: Seq<Bits>, kernel: Seq<Bits>, reach: nat, i: int, p: int)
    requires
        is_impulse(raw, p),
        is_kernel_of(kernel, reach),
        0 <= i < raw.len(),
    ensures
        ({
            let v = value(smoothed_at(raw, kernel, reach, i, true));
            if p - reach <= i <= p + reach {
                2 * v >= one() - 0x4000 * fine()
            } else {
                v == 0
            }
        }),
{
    lemma_ends();
    lemma_fine();
    lemma_one();
    lemma2_to64();
    lemma_pow2_adds(1, 148);
    lemma_pow2_adds(23, 125);
    let u = one();
    let g = fine();
    let n = kernel.len() as int;
    assert(unsigned(HALF) == HALF && !negative(HALF));
    assert(last_digit(HALF) == 125 && significand(HALF) == 0x80_0000);
    let h = value(HALF);
    assert(2 * h == u && is_finite(HALF));
    lemma_gathered(raw, kernel, reach, i, n, p);
    lemma_falls_on_itself(raw.len(), reach, i, n);
    let (total, weight, extreme) = gathered(raw, kernel, reach, i, n, true);
    let c = falling(raw.len(), reach, i, n);
    assert(c * u >= u) by (nonlinear_arith)
        requires
            c >= 1,
            u > 0,
    ;
    let w = value(weight);
    assert(w > 0);
    let mean = fdiv(total, weight);
    let at = p - i + reach;
    if 0 <= at < n {
        assert(is_finite(kernel[at]));
        let t = value(total);
        lemma_pow2_adds(12, 149);
        lemma_pow2_strictly_increases(161, 275);
        assert(u * 4096 <= pow2(275));
        let big = pow2(275) as int;
        assert(t * u <= w * big) by (nonlinear_arith)
            requires
                0 <= t <= u,
                u <= 2048 * w,
                u * 2048 <= big,
                u > 0,
        ;
        lemma_quotient_error(total, weight);
        let q = value(mean);
        assert(q <= 4096 * u) by (nonlinear_arith)
            requires
                (q * w - t * u) * 0x100_0000 <= t * u + w * 0x100_0000,
                0 <= t <= u,
                u <= 2048 * w,
                u >= 0x100_0000,
        ;
        assert(0 <= h * q <= 4096 * (u * u)) by (nonlinear_arith)
            requires
                0 <= q <= 4096 * u,
                2 * h == u,
                u > 0,
        ;
        assert(h * q <= u * big) by (nonlinear_arith)
            requires
                h * q <= 4096 * (u * u),
                u * 4096 <= big,
                u > 0,
        ;
        lemma_product_error(HALF, mean);
        let x = value(fmul(HALF, mean));
        let hq = h * q;
        assert(0 <= x <= 4097 * u) by (nonlinear_arith)
            requires
                x >= 0,
                (x * u - hq) * 0x100_0000 <= hq + u * 0x100_0000,
                hq <= 4096 * (u * u),
                u >= 0x100_0000,
        ;
        let e = value(extreme);
        assert(e == u);
        assert(0 <= h * e <= 1 * (u * u)) by (nonlinear_arith)
            requires
                e == u,
                2 * h == u,
                u > 0,
        ;
        lemma_product_off(HALF, extreme, 1);
        let y = value(fmul(HALF, extreme));
        assert(u - 4 * g <= 2 * y <= u + 4 * g) by (nonlinear_arith)
            requires
                -(2 * (g * u)) <= y * u - h * e <= 2 * (g * u),
                e == u,
                2 * h == u,
                u > 0,
        ;
        lemma_sum_off(fmul(HALF, mean), fmul(HALF, extreme), 4100);
    } else {
        assert(0 * u == 0);
        assert(0 * pow2(149) == 0);
        assert((0nat * pow2(149)) * w == 0) by (nonlinear_arith)
            requires
                0nat * pow2(149) == 0,
        ;
        lemma_exact_quotient(total, weight, 0, 149);
        lemma_times_half(mean);
        lemma_times_half(extreme);
        lemma_after_nothing(fmul(HALF, mean), fmul(HALF, extreme));
    }
}

/// Half of nothing.
proof fn lemma_times_half(x: Bits)
    requires
        is_finite(x),
        value(x) == 0,
    ensures
        is_finite(fmul(HALF, x)),
        value(fmul(HALF, x)) == 0,
{
    lemma_one();
    lemma_zero(x);
    lemma_zero(HALF);
    let num = magnitude(HALF) * magnitude(x);
    assert(num == 0) by (nonlinear_arith)
        requires
            num == magnitude(HALF) * magnitude(x),
            magnitude(x) == 0,
    ;
    lemma_ratio_pattern(0, pow2(149), negative(HALF) != negative(x));
    lemma_ratio_between(0, pow2(149), 0, 24);
    lemma_exact(0, 0);
    assert(0 * pow2(0) == 0 && 0 * pow2(149) == 0);
    lemma_pow2_pos(277);
}

// ---- Reduction --------------------------------------------------------------

/// What a column lost is by how much the peak of its frames fell, up to rounding; a column
/// whose peak rose lost nothing.
pub proof fn law_loss_is_fallen_peak(input: Seq<Bits>, output: Seq<Bits>, px: nat, pixels: nat, start: nat, end: nat)
    requires
        ({
            let (a, b) = column_frames(px, pixels, start, end);
            let before = top(input, a as int, b - a);
            let after = top(output, a as int, b - a);
            &&& is_finite(before) && 0 <= value(before) <= 0x1_0000 * one()
            &&& is_finite(after) && 0 <= value(after) <= 0x1_0000 * one()
        }),
    ensures
        ({
            let (a, b) = column_frames(px, pixels, start, end);
            let fell = value(top(input, a as int, b - a)) - value(top(output, a as int, b - a));
            let lost = value(column_loss(input, output, px, pixels, start, end));
            &&& fell <= 0 ==> lost == 0
            &&& fell > 0 ==> abs(lost - fell) * 0x100_0000 <= fell + 0x100_0000
        }),
{
    lemma_ends();
    lemma_one();
    let (a, b) = column_frames(px, pixels, start, end);
    let before = top(input, a as int, b - a);
    let after = top(output, a as int, b - a);
    lemma_difference_rounds(before, after);
    let fell = value(before) - value(after);
    let x = value(fsub(before, after));
    if fell == 0 {
        lemma_negated(after);
        assert(0 * pow2(149) == 0);
        lemma_exact_sum(before, negated(after), 0, 149);
    }
    if fell < 0 {
        assert(x <= 0);
    }
}

} // verus!
