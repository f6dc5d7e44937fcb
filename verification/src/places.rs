//! Where frequencies lie among the bins and times among the slices, and where scrolling
//! and dragging lead.

use vstd::prelude::*;
use vstd::arithmetic::power2::*;
use crate::accuracy::{fine, is_near, one, lemma_difference_off, lemma_difference_rounds, lemma_exact_quotient, lemma_fine, lemma_near_cancel, lemma_near_factor, lemma_near_product, lemma_near_quotient, lemma_one, lemma_product_off, lemma_quotient_off, lemma_small_number, lemma_sum_off, lemma_whole_ratio};
use crate::arith::number;
use crate::correlation::{NO_ENERGY, curve_bins, peak_energy, relative};
use crate::columns::column_start;
use crate::fft::{Spectrogram, band_bins};
use crate::heatmap::{Shown, bin_at, row_of, slice_at};
use crate::heights::{between, lemma_ends};
use crate::plan::{frame_at, or_else};
use crate::rounding::lemma_nearest_bounds;
use crate::scalar::{fabs, fadd, fdiv, fmul, fsub, raised, truncated};
use crate::single::{Bits, ONE, TWO, at_most_index, clamped, distance, is_finite, is_nan, last_digit, magnitude, negative, significand, unsigned, value, lemma_zero};
use crate::transfer::law_frame_of_time;
use crate::trim::Trim;
use crate::viewport::{SCROLL_STEP, Viewport, scroll_limit};
use crate::zones::SMALL;

verus! {

// ---- Frequencies ------------------------------------------------------------

/// A frequency lies among the bins of half the rate where its part of half the rate says,
/// up to rounding.
pub proof fn law_frequency_among_bins(hz: Bits, rate: u32, bins: nat)
    requires
        is_finite(hz),
        1 <= rate <= 0x100_0000,
        1 <= bins <= 0x100_0000,
        one() <= value(hz) <= 0x100_0000 * one(),
    ensures
        is_finite(bin_at(hz, rate, bins)),
        is_near(value(bin_at(hz, rate, bins)), value(hz) * (2 * bins), rate as int, 3),
{
    lemma_fine();
    lemma_one();
    lemma_ends();
    lemma_small_number(rate as nat);
    lemma_small_number(bins);
    lemma2_to64();
    lemma_pow2_adds(1, 148);
    lemma_pow2_strictly_increases(149, 276);
    let u = one();
    let h = pow2(148) as int;
    let r = rate as int;
    let b = bins as int;
    let x = value(hz);
    let w = pow2(276) as int;
    assert((r * u) * u == (r * h) * (2 * u)) by (nonlinear_arith)
        requires
            u == 2 * h,
    ;
    lemma_exact_quotient(number(rate as nat), TWO, rate as nat, 148);
    let half = fdiv(number(rate as nat), TWO);
    let y = value(half);
    assert(y == r * h);
    assert(h <= y <= 0x80_0000 * u) by (nonlinear_arith)
        requires
            y == r * h,
            1 <= r <= 0x100_0000,
            u == 2 * h,
            h > 0,
    ;
    assert(x * u >= y * 0x80_0000 && x * u <= y * w) by (nonlinear_arith)
        requires
            u <= x <= 0x100_0000 * u,
            u <= 2 * y,
            y <= 0x80_0000 * u,
            u >= 0x1_0000_0000_0000,
            u * 0x1_0000_0000_0000 <= w,
    ;
    lemma_near_quotient(hz, half);
    let q = value(fdiv(hz, half));
    let p = x * u;
    assert(q > 0 && 0x200_0000 * q >= u && q <= 0x200_0000 * (2 * u)) by (nonlinear_arith)
        requires
            -(1 * p) <= (q * y - p) * 0x100_0000 <= 1 * p,
            p == x * u,
            u <= x <= 0x100_0000 * u,
            u <= 2 * y,
            y <= 0x80_0000 * u,
            u > 0,
    ;
    assert(q * (b * u) >= u * 0x80_0000 && q * (b * u) <= u * w) by (nonlinear_arith)
        requires
            0x200_0000 * q >= u,
            0 < q <= 0x400_0000 * u,
            1 <= b <= 0x100_0000,
            u >= 0x1_0000_0000_0000,
            u * 0x1_0000_0000_0000_0000 <= w,
    ;
    assert(b * u > 0) by (nonlinear_arith)
        requires
            b >= 1,
            u > 0,
    ;
    lemma_near_product(fdiv(hz, half), number(bins));
    let v = value(bin_at(hz, rate, bins));
    assert(p >= 0);
    lemma_near_factor(q, p, y, 1, v, b * u, u, 1);
    let c = u * h;
    assert(c > 0) by (nonlinear_arith)
        requires
            c == u * h,
            u > 0,
            h > 0,
    ;
    assert(p * (b * u) == (x * (2 * b)) * c) by (nonlinear_arith)
        requires
            p == x * u,
            c == u * h,
            u == 2 * h,
    ;
    assert(y * u == r * c) by (nonlinear_arith)
        requires
            y == r * h,
            c == u * h,
    ;
    lemma_near_cancel(v, x * (2 * b), r, c, 3);
}

proof fn lemma_bins_below(x: int, whole: nat, up: nat, k: int, f: int, r: int)
    requires
        x >= 0,
        r > 0,
        f >= 0,
        k >= 0,
        is_near(x, f, r, 3),
        whole == x / one(),
        up == (x + one() - 1) / one(),
    ensures
        f * 0x100_0004 <= (k * r) * (one() * 0x100_0000) ==> whole <= k && up <= k,
        (k * r) * (one() * 0x100_0000) < f * 0xff_fffc ==> k < up,
        ((k + 1) * r) * (one() * 0x100_0000) <= f * 0xff_fffc ==> k < whole,
{
    lemma_one();
    let u = one();
    let d: int = 0x100_0000;
    vstd::arithmetic::div_mod::lemma_fundamental_div_mod(x, u);
    vstd::arithmetic::div_mod::lemma_mod_bound(x, u);
    vstd::arithmetic::div_mod::lemma_fundamental_div_mod(x + u - 1, u);
    vstd::arithmetic::div_mod::lemma_mod_bound(x + u - 1, u);
    let w = whole as int;
    let b = up as int;
    let y = x * r;
    if f * 0x100_0004 <= (k * r) * (u * 0x100_0000) {
        assert(x <= k * u) by (nonlinear_arith)
            requires
                (x * r - f) * 0x100_0000 <= 3 * f,
                f * 0x100_0004 <= (k * r) * (u * 0x100_0000),
                f >= 0,
                r > 0,
        ;
        assert(w <= k && b <= k) by (nonlinear_arith)
            requires
                x <= k * u,
                u * w <= x,
                u * b <= x + u - 1,
                u > 0,
        ;
    }
    if (k * r) * (u * 0x100_0000) < f * 0xff_fffc {
        assert(x > k * u) by (nonlinear_arith)
            requires
                -(3 * f) <= (x * r - f) * 0x100_0000,
                (k * r) * (u * 0x100_0000) < f * 0xff_fffc,
                f >= 0,
                r > 0,
        ;
        assert(k < b) by (nonlinear_arith)
            requires
                x > k * u,
                x + u - 1 < u * b + u,
                u > 0,
        ;
    }
    if ((k + 1) * r) * (u * 0x100_0000) <= f * 0xff_fffc {
        assert(x >= (k + 1) * u) by (nonlinear_arith)
            requires
                -(3 * f) <= (x * r - f) * 0x100_0000,
                ((k + 1) * r) * (u * 0x100_0000) <= f * 0xff_fffc,
                f >= 0,
                r > 0,
        ;
        assert(k < w) by (nonlinear_arith)
            requires
                x >= (k + 1) * u,
                x < u * w + u,
                u > 0,
        ;
    }
}

proof fn lemma_edges(hz: Bits, rate: u32, bins: nat, k: int)
    requires
        is_finite(hz),
        1 <= rate <= 0x100_0000,
        1 <= bins <= 0x100_0000,
        one() <= value(hz) <= 0x100_0000 * one(),
        0 <= k,
    ensures
        ({
            let at = bin_at(hz, rate, bins);
            let f = value(hz) * (2 * bins);
            let b = (k * rate) * (one() * 0x100_0000);
            &&& f * 0x100_0004 <= b ==> truncated(at) <= k && raised(at) <= k
            &&& k < u32::MAX && b < f * 0xff_fffc ==> k < at_most_index(raised(at))
            &&& k < u32::MAX && ((k + 1) * rate) * (one() * 0x100_0000) <= f * 0xff_fffc ==> k < at_most_index(truncated(at))
        }),
{
    lemma_one();
    law_frequency_among_bins(hz, rate, bins);
    let at = bin_at(hz, rate, bins);
    let x = value(at);
    let f = value(hz) * (2 * bins);
    let r = rate as int;
    assert(f > 0) by (nonlinear_arith)
        requires
            f == value(hz) * (2 * bins),
            value(hz) > 0,
            bins >= 1,
    ;
    assert(x > 0) by (nonlinear_arith)
        requires
            -(3 * f) <= (x * r - f) * 0x100_0000,
            f > 0,
            r > 0,
    ;
    lemma_zero(at);
    assert(!negative(at) && !is_nan(at) && magnitude(at) == x);
    let w = (x / one()) as nat;
    let b = ((x + one() - 1) / one()) as nat;
    vstd::arithmetic::div_mod::lemma_div_pos_is_pos(x, one());
    vstd::arithmetic::div_mod::lemma_div_pos_is_pos(x + one() - 1, one());
    lemma_bins_below(x, w, b, k, f, r);
}

/// A band holds the bins of its frequencies: a bin whose frequency lies between the two
/// edges, clear of rounding, is in it, and one a bin or more outside is not. The rows of
/// the spectrogram and the pixels of the correlation curve show theirs likewise.
pub proof fn law_band_holds_its_frequencies(lo_hz: Bits, hi_hz: Bits, rate: u32, bins: nat, k: int)
    requires
        is_finite(lo_hz) && is_finite(hi_hz),
        1 <= rate <= 0x100_0000,
        1 <= bins <= 0x100_0000,
        one() <= value(lo_hz) <= value(hi_hz) <= 0x100_0000 * one(),
        1 <= k < bins,
    ensures
        ({
            let (a, b) = band_bins(lo_hz, hi_hz, rate, bins);
            let row = row_of(lo_hz, hi_hz, rate, bins);
            let curve = curve_bins(lo_hz, hi_hz, rate, bins);
            // the frequencies of the bin and of the two edges, on one scale
            let here = (k * rate) * (one() * 0x100_0000);
            let next = ((k + 1) * rate) * (one() * 0x100_0000);
            let lo = value(lo_hz) * (2 * bins);
            let hi = value(hi_hz) * (2 * bins);
            &&& lo * 0x100_0004 <= here < hi * 0xff_fffc ==> {
                &&& a <= k < b
                &&& row.bin_lo <= k < row.bin_hi
                &&& curve matches Some(c) && c.0 <= k < c.1
            }
            &&& next <= lo * 0xff_fffc ==> {
                &&& k < a
                &&& row.bin_lo > k || k == bins - 1
                &&& curve matches Some(c) ==> k < c.0
            }
            &&& here >= hi * 0x100_0004 ==> {
                &&& k >= b || k == a
                &&& k >= row.bin_hi || k == row.bin_lo
                &&& curve matches Some(c) ==> k >= c.1 || k == c.0
            }
        }),
{
    lemma_edges(lo_hz, rate, bins, k);
    lemma_edges(hi_hz, rate, bins, k);
    let l = value(lo_hz) * (2 * bins);
    let h = value(hi_hz) * (2 * bins);
    assert(0 <= l <= h) by (nonlinear_arith)
        requires
            l == value(lo_hz) * (2 * bins),
            h == value(hi_hz) * (2 * bins),
            0 <= value(lo_hz) <= value(hi_hz),
    ;
}

// ---- Columns ----------------------------------------------------------------

/// Columns of pixels share the frames of a window evenly: column `px` of `pixels` begins
/// its part of the way into the window, without the fraction, up to rounding.
pub proof fn law_columns_are_even(px: nat, pixels: nat, start: nat, end: nat)
    requires
        1 <= px <= pixels <= 0x100_0000,
        start < end <= start + 0x1000_0000,
    ensures
        ({
            let f = column_start(px, pixels, start, end) - start;
            let n = end - start;
            &&& 0 <= f <= n
            &&& (f * pixels) * 0x1_0000 <= (px * n) * 0x1_0001 + pixels
            &&& f < n ==> (px * n) * 0xffff <= ((f + 1) * pixels) * 0x1_0000 + pixels
        }),
{
    lemma_one();
    let u = one();
    let n = (end - start) as int;
    let t = fdiv(number(px), number(pixels));
    lemma_whole_ratio(px, pixels);
    let x = value(t);
    let p = pixels as int;
    let q = px as int;
    assert(x <= 2 * u) by (nonlinear_arith)
        requires
            (x * p - q * u) * 0x100_0000 <= 8 * (q * u),
            0 < q <= p,
            u > 0,
    ;
    assert(x * n <= 0x4000_0000 * u) by (nonlinear_arith)
        requires
            0 < x <= 2 * u,
            0 < n <= 0x1000_0000,
    ;
    lemma_zero(t);
    law_frame_of_time(t, n as u32, n as nat);
    let f = column_start(px, pixels, start, end) - start;
    assert(f == frame_at(t, n as u32, n as nat));
    let y = x * n;
    let z = q * n;
    // y * p is z * u up to rounding
    assert((y * p - z * u) * 0x100_0000 <= 8 * (z * u) && -(8 * (z * u)) <= (y * p - z * u) * 0x100_0000) by {
        let o = x * p - q * u;
        assert(y * p - z * u == o * n) by {
            assert((x * n) * p == (x * p) * n) by (nonlinear_arith);
            assert((q * n) * u == (q * u) * n) by (nonlinear_arith);
            assert(o * n == (x * p) * n - (q * u) * n) by (nonlinear_arith)
                requires
                    o == x * p - q * u,
            ;
        }
        assert((q * n) * u == (q * u) * n) by (nonlinear_arith);
        let m = q * u;
        assert((o * n) * 0x100_0000 <= 8 * (m * n) && -(8 * (m * n)) <= (o * n) * 0x100_0000) by (nonlinear_arith)
            requires
                o * 0x100_0000 <= 8 * m,
                -(8 * m) <= o * 0x100_0000,
                n > 0,
        ;
    }
    let w = y * p;
    let v = z * u;
    assert(v >= 0 && z >= 0) by (nonlinear_arith)
        requires
            v == z * u,
            z == q * n,
            q > 0,
            n > 0,
            u > 0,
    ;
    assert(((f * u) * p) * 0x10_0000 <= w * 0x10_0001 + u * p) by (nonlinear_arith)
        requires
            (f * u) * 0x10_0000 <= y * 0x10_0001 + u,
            w == y * p,
            p > 0,
    ;
    assert((f * u) * p == (f * p) * u) by (nonlinear_arith);
    let a = f * p;
    assert(a * 0x1_0000 <= z * 0x1_0001 + p) by (nonlinear_arith)
        requires
            (a * u) * 0x10_0000 <= w * 0x10_0001 + u * p,
            (w - v) * 0x100_0000 <= 8 * v,
            v == z * u,
            v >= 0,
            z >= 0,
            p > 0,
            u > 0,
    ;
    if f < n {
        assert(w * 0xf_ffff <= (((f + 1) * u) * p) * 0x10_0000 + u * p) by (nonlinear_arith)
            requires
                y * 0xf_ffff <= ((f + 1) * u) * 0x10_0000 + u,
                w == y * p,
                p > 0,
        ;
        assert(((f + 1) * u) * p == ((f + 1) * p) * u) by (nonlinear_arith);
        let b = (f + 1) * p;
        assert(z * 0xffff <= b * 0x1_0000 + p) by (nonlinear_arith)
            requires
                w * 0xf_ffff <= (b * u) * 0x10_0000 + u * p,
                -(8 * v) <= (w - v) * 0x100_0000,
                v == z * u,
                v >= 0,
                z >= 0,
                p > 0,
                u > 0,
        ;
    }
}

// ---- Slices -----------------------------------------------------------------

/// The time that column `px` stands for.
pub open spec fn column_time(shown: Shown, px: nat) -> Bits {
    fadd(shown.scroll, fmul(fdiv(number(px), number(shown.pixels as nat)), shown.visible))
}

proof fn lemma_column_time(shown: Shown, px: nat, m: int)
    requires
        is_finite(shown.scroll) && is_finite(shown.visible),
        px < shown.pixels <= 0x1_0000,
        1 <= m <= 0x1_0000,
        0 <= value(shown.scroll) <= m * one(),
        0 <= value(shown.visible) <= m * one(),
    ensures
        ({
            let t = value(column_time(shown, px));
            let n = shown.pixels as int;
            let e = (8 * m + 2) * (fine() * n);
            &&& is_finite(column_time(shown, px))
            &&& -(5 * m * one()) <= t <= 5 * m * one()
            &&& -e <= t * n - (value(shown.scroll) * n + px * value(shown.visible)) <= e
        }),
{
    lemma_fine();
    lemma_small_number(px);
    lemma_small_number(shown.pixels as nat);
    let u = one();
    let g = fine();
    let n = shown.pixels as int;
    let s = value(shown.scroll);
    let v = value(shown.visible);
    let part = fdiv(number(px), number(shown.pixels as nat));
    assert(0 <= px * u <= 1 * (n * u) && n * u > 0) by (nonlinear_arith)
        requires
            0 <= px < n,
            u > 0,
    ;
    lemma_quotient_off(number(px), number(shown.pixels as nat), 1);
    let a = value(part);
    assert(-(2 * (g * n)) <= a * n - px * u <= 2 * (g * n)) by (nonlinear_arith)
        requires
            -(2 * (g * (n * u))) <= a * (n * u) - (px * u) * u <= 2 * (g * (n * u)),
            u > 0,
    ;
    assert(-(2 * g) <= a <= u + 2 * g) by (nonlinear_arith)
        requires
            -(2 * (g * n)) <= a * n - px * u <= 2 * (g * n),
            0 <= px < n,
            u > 0,
            g > 0,
    ;
    assert(-(2 * m * (u * u)) <= a * v <= 2 * m * (u * u)) by (nonlinear_arith)
        requires
            -u <= a <= 2 * u,
            0 <= v <= m * u,
            m >= 1,
            u > 0,
    ;
    lemma_product_off(part, shown.visible, 2 * m);
    let b = value(fmul(part, shown.visible));
    assert(-(2 * (g * n) * v) <= (a * n) * v - (px * u) * v <= 2 * (g * n) * v) by (nonlinear_arith)
        requires
            -(2 * (g * n)) <= a * n - px * u <= 2 * (g * n),
            v >= 0,
    ;
    assert(2 * (g * n) * v <= (2 * m) * (g * n) * u) by (nonlinear_arith)
        requires
            0 <= v <= m * u,
            g > 0,
            n > 0,
    ;
    assert(-((2 * m + 1) * (g * n) * u) <= (b * u - a * v) * n <= (2 * m + 1) * (g * n) * u) by (nonlinear_arith)
        requires
            -((2 * m + 1) * (g * u)) <= b * u - a * v <= (2 * m + 1) * (g * u),
            n > 0,
    ;
    assert((b * n - px * v) * u == (b * n) * u - (px * v) * u) by (nonlinear_arith);
    assert((b * u - a * v) * n == (b * u) * n - (a * v) * n) by (nonlinear_arith);
    assert((b * n) * u == (b * u) * n) by (nonlinear_arith);
    assert((a * v) * n == (a * n) * v) by (nonlinear_arith);
    assert((px * v) * u == (px * u) * v) by (nonlinear_arith);
    assert(-((4 * m + 1) * (g * n)) <= b * n - px * v <= (4 * m + 1) * (g * n)) by (nonlinear_arith)
        requires
            -((2 * m + 1) * (g * n) * u) - (2 * m) * (g * n) * u <= (b * n - px * v) * u <= (2 * m + 1) * (g * n) * u + (2
                * m) * (g * n) * u,
            u > 0,
    ;
    assert(-(3 * m * u) <= b <= 3 * m * u) by (nonlinear_arith)
        requires
            -((2 * m + 1) * (g * u)) <= b * u - a * v <= (2 * m + 1) * (g * u),
            -(2 * m * (u * u)) <= a * v <= 2 * m * (u * u),
            g * 0x100_0000 == u,
            1 <= m <= 0x1_0000,
            u > 0,
            g > 0,
    ;
    assert(3 * m * u + m * u == 4 * m * u) by (nonlinear_arith);
    assert(-(4 * m * u) <= s + b <= 4 * m * u);
    lemma_sum_off(shown.scroll, fmul(part, shown.visible), 4 * m);
    let t = value(column_time(shown, px));
    assert(-((4 * m + 1) * (g * n)) <= (t - s - b) * n <= (4 * m + 1) * (g * n)) by (nonlinear_arith)
        requires
            -((4 * m + 1) * g) <= t - s - b <= (4 * m + 1) * g,
            n > 0,
    ;
    assert(t * n - (s * n + px * v) == (t - s - b) * n + (b * n - px * v)) by (nonlinear_arith);
    assert((4 * m + 1) * (g * n) + (4 * m + 1) * (g * n) == (8 * m + 2) * (g * n)) by (nonlinear_arith);
    assert((4 * m + 1) * g <= m * u) by (nonlinear_arith)
        requires
            g * 0x100_0000 == u,
            m >= 1,
            g > 0,
    ;
    assert(4 * m * u + m * u == 5 * m * u) by (nonlinear_arith);
}

/// A column of the spectrogram shows the slice whose middle lies at the column's time:
/// the slices are a hop apart, and the first has its middle half a window into the file.
/// That holds up to rounding for columns within the first `m` seconds.
pub proof fn law_column_shows_its_time(sg: Spectrogram, shown: Shown, px: nat, m: int)
    requires
        is_finite(shown.scroll) && is_finite(shown.visible),
        px < shown.pixels <= 0x1_0000,
        1 <= m <= 0x1_0000,
        0 <= value(shown.scroll) <= m * one(),
        0 <= value(shown.visible) <= m * one(),
        1 <= sg.sample_rate <= 0x10_0000,
        1 <= sg.hop <= sg.fft_size <= 0x1_0000,
    ensures
        ({
            let at = value(slice_at(&sg, shown, px));
            let n = shown.pixels as int;
            let rate = sg.sample_rate as int;
            let time = value(shown.scroll) * n + px * value(shown.visible);
            // twice the frame of the column's time, as many times as there are columns
            let wanted = 2 * (time * rate) - sg.fft_size * (one() * n);
            let off = 2 * (at * (sg.hop * n)) - wanted;
            let few = (64 * (m * rate) + 8 * sg.fft_size) * (fine() * n);
            -few <= off <= few
        }),
{
    lemma_fine();
    lemma_one();
    lemma_ends();
    lemma_column_time(shown, px, m);
    let u = one();
    let g = fine();
    let n = shown.pixels as int;
    let rate = sg.sample_rate as int;
    let size = sg.fft_size as int;
    let hop = sg.hop as int;
    lemma_small_number(sg.sample_rate as nat);
    lemma_small_number(sg.fft_size as nat);
    lemma_small_number(sg.hop as nat);
    let t = column_time(shown, px);
    let x = value(t);
    let k = m * rate;
    assert(1 <= k <= 0x10_0000_0000) by (nonlinear_arith)
        requires
            k == m * rate,
            1 <= m <= 0x1_0000,
            1 <= rate <= 0x10_0000,
    ;
    assert(-(5 * k * (u * u)) <= x * (rate * u) <= 5 * k * (u * u)) by (nonlinear_arith)
        requires
            -(5 * m * u) <= x <= 5 * m * u,
            k == m * rate,
            rate > 0,
            u > 0,
    ;
    let r = fmul(t, number(sg.sample_rate as nat));
    lemma_product_off(t, number(sg.sample_rate as nat), 5 * k);
    let y = value(r);
    assert(-((5 * k + 1) * g) <= y - x * rate <= (5 * k + 1) * g) by (nonlinear_arith)
        requires
            -((5 * k + 1) * (g * u)) <= y * u - x * (rate * u) <= (5 * k + 1) * (g * u),
            u > 0,
    ;
    // half a window
    lemma2_to64();
    lemma_pow2_adds(1, 148);
    let h = pow2(148) as int;
    assert((size * u) * u == (size * h) * (2 * u)) by (nonlinear_arith)
        requires
            u == 2 * h,
    ;
    lemma_exact_quotient(number(sg.fft_size as nat), TWO, sg.fft_size as nat, 148);
    let half = fdiv(number(sg.fft_size as nat), TWO);
    let z = value(half);
    assert(2 * z == size * u && 0 <= z <= size * u) by (nonlinear_arith)
        requires
            z == size * h,
            u == 2 * h,
            size >= 0,
            h > 0,
    ;
    assert(-(6 * k * u) <= y <= 6 * k * u) by (nonlinear_arith)
        requires
            -((5 * k + 1) * g) <= y - x * rate <= (5 * k + 1) * g,
            -(5 * k * (u * u)) <= x * (rate * u) <= 5 * k * (u * u),
            g * 0x100_0000 == u,
            k >= 1,
            u > 0,
            g > 0,
    ;
    let m3 = 6 * k + size;
    assert(m3 * u == 6 * k * u + size * u) by (nonlinear_arith)
        requires
            m3 == 6 * k + size,
    ;
    lemma_difference_off(r, half, m3);
    let d = fsub(r, half);
    let w = value(d);
    assert((m3 + 1) * g <= k * u) by (nonlinear_arith)
        requires
            m3 <= 6 * k + 0x1_0000,
            k >= 1,
            g * 0x100_0000 == u,
            g > 0,
    ;
    let m4 = 7 * k + size;
    assert(m4 * u == m3 * u + k * u) by (nonlinear_arith)
        requires
            m4 == m3 + k,
    ;
    assert(-(m4 * u) <= w <= m4 * u);
    let c = m4 / hop + 1;
    vstd::arithmetic::div_mod::lemma_fundamental_div_mod(m4, hop);
    vstd::arithmetic::div_mod::lemma_mod_bound(m4, hop);
    assert(m4 <= c * hop <= m4 + hop && 0 <= c <= m4 + 1) by (nonlinear_arith)
        requires
            m4 == hop * (c - 1) + m4 % hop,
            0 <= m4 % hop < hop,
            c >= 1 || c < 1,
            m4 >= 0,
            hop >= 1,
    ;
    assert(m4 * u <= c * (hop * u) && hop * u > 0) by (nonlinear_arith)
        requires
            m4 <= c * hop,
            hop >= 1,
            u > 0,
    ;
    lemma_quotient_off(d, number(sg.hop as nat), c);
    let at = value(slice_at(&sg, shown, px));
    assert(-((c + 1) * (g * hop)) <= at * hop - w <= (c + 1) * (g * hop)) by (nonlinear_arith)
        requires
            -((c + 1) * (g * (hop * u))) <= at * (hop * u) - w * u <= (c + 1) * (g * (hop * u)),
            u > 0,
    ;
    assert((c + 1) * (g * hop) <= (m4 + 2 * hop) * g) by (nonlinear_arith)
        requires
            c * hop <= m4 + hop,
            g > 0,
    ;
    let e1 = (5 * k + 1) * g + (m3 + 1) * g + (m4 + 2 * hop) * g;
    assert(-e1 <= at * hop - (x * rate - z) <= e1);
    let e2 = 18 * k + 4 * size + 2;
    assert(e1 <= e2 * g) by (nonlinear_arith)
        requires
            e1 == (5 * k + 1) * g + (m3 + 1) * g + (m4 + 2 * hop) * g,
            m3 == 6 * k + size,
            m4 == 7 * k + size,
            hop <= size,
            e2 == 18 * k + 4 * size + 2,
            g > 0,
    ;
    let p = at * hop - (x * rate - z);
    assert(-(e2 * (g * n)) <= p * n <= e2 * (g * n)) by (nonlinear_arith)
        requires
            -(e2 * g) <= p <= e2 * g,
            n > 0,
    ;
    let time = value(shown.scroll) * n + px * value(shown.visible);
    let o = x * n - time;
    let e3 = 8 * k + 2 * rate;
    assert(-(e3 * (g * n)) <= o * rate <= e3 * (g * n)) by (nonlinear_arith)
        requires
            -((8 * m + 2) * (g * n)) <= o <= (8 * m + 2) * (g * n),
            e3 == 8 * k + 2 * rate,
            k == m * rate,
            rate > 0,
    ;
    assert(rate <= k) by (nonlinear_arith)
        requires
            k == m * rate,
            m >= 1,
            rate >= 1,
    ;
    assert(p * n == (at * hop) * n - (x * rate) * n + z * n) by (nonlinear_arith)
        requires
            p == at * hop - (x * rate - z),
    ;
    assert(o * rate == (x * n) * rate - time * rate) by (nonlinear_arith)
        requires
            o == x * n - time,
    ;
    assert((x * rate) * n == (x * n) * rate) by (nonlinear_arith);
    assert((at * hop) * n == at * (hop * n)) by (nonlinear_arith);
    assert(2 * (z * n) == size * (u * n)) by (nonlinear_arith)
        requires
            2 * z == size * u,
    ;
    assert(2 * (e2 * (g * n)) + 2 * (e3 * (g * n)) <= (64 * k + 8 * size) * (g * n)) by (nonlinear_arith)
        requires
            e2 == 18 * k + 4 * size + 2,
            e3 <= 10 * k,
            k >= 1,
            g > 0,
            n > 0,
    ;
}

// ---- Bands ------------------------------------------------------------------

proof fn lemma_peak_energy(e: Seq<Bits>, n: int)
    requires
        0 <= n <= e.len(),
        forall|i: int| 0 <= i < n ==> is_finite(#[trigger] e[i]),
    ensures
        is_finite(peak_energy(e, n)),
        value(peak_energy(e, n)) >= 0,
        forall|i: int| 0 <= i < n ==> value(#[trigger] e[i]) <= value(peak_energy(e, n)),
    decreases n,
{
    lemma_ends();
    if n > 0 {
        lemma_peak_energy(e, n - 1);
    }
}

proof fn lemma_peak_reached(e: Seq<Bits>, top: int, n: int)
    requires
        0 <= top < n <= e.len(),
        forall|i: int| 0 <= i < n ==> is_finite(#[trigger] e[i]) && 0 <= value(e[i]) <= value(e[top]),
    ensures
        value(peak_energy(e, n)) == value(e[top]),
    decreases n,
{
    lemma_ends();
    if top < n - 1 {
        lemma_peak_reached(e, top, n - 1);
        lemma_peak_energy(e, n - 1);
    } else {
        lemma_peak_energy(e, n - 1);
        lemma_peak_at_most(e, value(e[top]), n - 1);
    }
}

proof fn lemma_peak_at_most(e: Seq<Bits>, most: int, n: int)
    requires
        0 <= n <= e.len(),
        0 <= most,
        forall|i: int| 0 <= i < n ==> is_finite(#[trigger] e[i]) && 0 <= value(e[i]) <= most,
    ensures
        value(peak_energy(e, n)) <= most,
    decreases n,
{
    lemma_ends();
    if n > 0 {
        lemma_peak_at_most(e, most, n - 1);
        lemma_peak_energy(e, n - 1);
    }
}

/// Energies are measured by the loudest band: it has all of the energy, and another band
/// has its part of it, up to rounding, as long as that is not next to nothing.
pub proof fn law_loudest_band_is_full(e: Seq<Bits>, i: int, top: int)
    requires
        0 <= i < e.len(),
        0 <= top < e.len(),
        forall|k: int| 0 <= k < e.len() ==> is_finite(#[trigger] e[k]) && 0 <= value(e[k]) <= value(e[top]),
        value(NO_ENERGY) <= value(e[top]),
    ensures
        value(relative(e, top)) == one(),
        value(e[i]) * one() >= value(e[top]) * (2 * value(NO_ENERGY)) ==> {
            let off = value(relative(e, i)) * value(e[top]) - value(e[i]) * one();
            let few = value(e[i]) * one() + value(e[top]) * 0x100_0000;
            -few <= off * 0x100_0000 <= few
        },
{
    lemma_ends();
    lemma_one();
    lemma_fine();
    lemma_weak();
    let u = one();
    let n = e.len() as int;
    let w = value(e[top]);
    assert(is_finite(e[top]) && is_finite(e[i]));
    lemma_peak_energy(e, n);
    lemma_peak_reached(e, top, n);
    let peak = crate::scalar::fmax(peak_energy(e, n), NO_ENERGY);
    assert(value(peak) == w && is_finite(peak));
    assert(w * u == (1nat * pow2(149)) * w) by (nonlinear_arith)
        requires
            u == pow2(149),
    ;
    lemma_exact_quotient(e[top], peak, 1, 149);
    let x = value(e[i]);
    let t = value(NO_ENERGY);
    if x * u >= w * (2 * t) {
        lemma_pow2_strictly_increases(149, 275);
        let p = pow2(275) as int;
        assert(x * u <= w * p) by (nonlinear_arith)
            requires
                0 <= x <= w,
                0 < u <= p,
        ;
        crate::accuracy::lemma_quotient_error(e[i], peak);
        let v = value(fdiv(e[i], peak));
        assert(v >= t) by (nonlinear_arith)
            requires
                -(x * u + w * 0x100_0000) <= (v * w - x * u) * 0x100_0000,
                x * u >= w * (2 * t),
                t >= 4,
                w > 0,
        ;
    }
}

/// What counts as no energy is a small positive number.
proof fn lemma_weak()
    ensures
        is_finite(NO_ENERGY),
        4 <= value(NO_ENERGY) < one(),
{
    lemma_ends();
    lemma_one();
    lemma2_to64();
    assert(unsigned(NO_ENERGY) == NO_ENERGY && !negative(NO_ENERGY) && unsigned(ONE) == ONE);
    assert(last_digit(NO_ENERGY) == 59 && significand(NO_ENERGY) == 0xbc_e508);
    lemma_pow2_pos(59);
    lemma_pow2_adds(24, 59);
    lemma_pow2_strictly_increases(83, 149);
}

// ---- Scrolling --------------------------------------------------------------

/// Half a window before a second: the window that begins there has the second in its
/// middle, up to rounding.
pub proof fn law_second_lies_in_the_middle(v: Viewport, t: Bits, duration: Bits)
    requires
        is_finite(v.zoom) && is_finite(t) && is_finite(duration),
        one() <= value(v.zoom) <= 0x10_0000 * one(),
        0 <= value(duration) <= 0x1_0000 * one(),
        0 <= value(t) <= value(duration),
    ensures
        ({
            let from = value(v.before(t, duration));
            let off = 2 * ((value(t) - from) * value(v.zoom)) - value(duration) * one();
            let few = 0x10_0000 * (fine() * value(v.zoom));
            is_finite(v.before(t, duration)) && -few <= off <= few
        }),
{
    lemma_fine();
    lemma_ends();
    let u = one();
    let g = fine();
    let z = value(v.zoom);
    let d = value(duration);
    let q = fdiv(duration, v.zoom);
    let h = fdiv(q, TWO);
    assert(d <= 0x1_0000 * z);
    assert(0 <= 0x1_0000 * z);
    lemma_quotient_off(duration, v.zoom, 0x1_0000);
    let x = value(q);
    assert(-(0x2_0002 * u) <= x <= 0x2_0002 * u);
    lemma_quotient_off(q, TWO, 0x1_0001);
    let y = value(h);
    assert(-(0x2_0004 * g) <= 2 * y - x <= 0x2_0004 * g) by (nonlinear_arith)
        requires
            -(0x1_0002 * (g * (2 * u))) <= y * (2 * u) - x * u <= 0x1_0002 * (g * (2 * u)),
            u > 0,
    ;
    lemma_difference_off(t, h, 0x3_0010);
    let w = value(t);
    let b = value(v.before(t, duration));
    assert(-(0x3_0011 * g) <= b - (w - y) <= 0x3_0011 * g);
    let e = 2 * (w - b) - x;
    assert(-(0x8_0026 * g) <= e <= 0x8_0026 * g);
    assert(-(0x8_0026 * (g * z)) <= e * z <= 0x8_0026 * (g * z)) by (nonlinear_arith)
        requires
            -(0x8_0026 * g) <= e <= 0x8_0026 * g,
            z > 0,
    ;
    assert(e * z == 2 * ((w - b) * z) - x * z) by (nonlinear_arith)
        requires
            e == 2 * (w - b) - x,
    ;
    assert(g * z > 0) by (nonlinear_arith)
        requires
            g > 0,
            z > 0,
    ;
}

/// Scrolling leads where it was asked to, as far as the file goes, within two steps that
/// are too small to be drawn, and leaves the zoom alone.
pub proof fn law_scroll_leads_there(v: Viewport, t: Bits, duration: Bits)
    requires
        is_finite(t) && is_finite(v.scroll),
        is_finite(scroll_limit(duration, v.zoom)),
        0 <= value(scroll_limit(duration, v.zoom)) <= 0x1000_0000 * one(),
        -(0x1000_0000 * one()) <= value(v.scroll) <= 0x1000_0000 * one(),
    ensures
        ({
            let n = v.scrolled(t, duration);
            let asked = between(value(t), 0, value(scroll_limit(duration, v.zoom)));
            n.zoom == v.zoom && -(2 * value(SCROLL_STEP)) <= value(n.scroll) - asked <= 2 * value(SCROLL_STEP)
        }),
{
    lemma_fine();
    lemma_ends();
    lemma_one();
    lemma2_to64();
    assert(unsigned(SCROLL_STEP) == SCROLL_STEP && !negative(SCROLL_STEP));
    assert(last_digit(SCROLL_STEP) == 106 && significand(SCROLL_STEP) == 0x86_37bd);
    lemma_pow2_pos(106);
    let s = value(SCROLL_STEP);
    assert(s >= 0x100_0000) by {
        lemma_pow2_adds(1, 105);
        lemma_pow2_pos(105);
    }
    let to = clamped(t, 0, scroll_limit(duration, v.zoom));
    let asked = between(value(t), 0, value(scroll_limit(duration, v.zoom)));
    assert(value(to) == asked && is_finite(to));
    let d = fsub(to, v.scroll);
    lemma_difference_rounds(to, v.scroll);
    crate::dsp::lemma_absolute(d);
    let x = asked - value(v.scroll);
    if value(fabs(d)) <= s {
        assert(magnitude(d) <= s);
        let y = value(d);
        assert(-s <= y <= s);
    }
}

// ---- Dragging ---------------------------------------------------------------

proof fn lemma_not_farther(a: Bits, b: Bits)
    requires
        !crate::single::farther(a, b, SMALL),
        !is_nan(a),
        !is_nan(b),
    ensures
        -(2 * value(SMALL)) <= value(a) - value(b) <= 2 * value(SMALL),
{
    let d = distance(a, b);
    lemma_nearest_bounds(d, 24);
    lemma_zero(SMALL);
    assert(!negative(SMALL));
    assert(value(SMALL) == magnitude(SMALL));
    let k = crate::rounding::spacing(d, 24);
    let q = d / k;
    vstd::arithmetic::div_mod::lemma_fundamental_div_mod(d as int, k as int);
    vstd::arithmetic::div_mod::lemma_mod_bound(d as int, k as int);
    lemma_pow2_pos(23);
    if crate::rounding::bit_len(d) > 24 {
        assert(d <= 2 * (q * k)) by (nonlinear_arith)
            requires
                d < k * q + k,
                q >= 1,
                k > 0,
        ;
    }
}

/// A handle goes where it is dragged: the start between the start of the file and the end
/// handle, the end between the start handle and the end of the file, within two steps
/// that are too small to take over. The other handle stays.
pub proof fn law_handle_goes_where_dragged(h: Trim, t: Bits, duration: Bits)
    requires
        h.wf(duration),
        !is_nan(t),
    ensures
        ({
            let a = h.with_start(t, duration);
            let b = h.with_end(t, duration);
            let start = between(value(t), 0, value(or_else(h.end, duration)));
            let end = between(value(t), value(or_else(h.start, 0)), value(duration));
            let few = 2 * value(SMALL);
            &&& a.end == h.end && a.start is Some && -few <= value(a.start->0) - start <= few
            &&& b.start == h.start && b.end is Some && -few <= value(b.end->0) - end <= few
        }),
{
    lemma_ends();
    lemma_zero(SMALL);
    let x = h.start_target(t, duration);
    let y = h.end_target(t, duration);
    assert(value(SMALL) >= 0);
    if h.start is Some && !crate::trim::moved(h.start, x) {
        lemma_not_farther(h.start->0, x);
    }
    if h.end is Some && !crate::trim::moved(h.end, y) {
        lemma_not_farther(h.end->0, y);
    }
}

} // verus!
