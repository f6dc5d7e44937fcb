//! Where levels, correlations and times are drawn, and what the fading of weak bands
//! keeps: straight lines between two ends, up to rounding.

use vstd::prelude::*;
use vstd::arithmetic::power2::*;
use crate::accuracy::{fine, one, lemma_difference_off, lemma_fine, lemma_one, lemma_product_off, lemma_quotient_off, lemma_sum_off};
use crate::canvas::amplitude_at;
use crate::correlation::{faded, plot_height};
use crate::display::{Area, LINE_FLOOR, LINE_SPAN, level_height, meter_width, sample_y};
use crate::dsp::{lemma_absolute, lemma_rails};
use crate::labels::thousandths;
use crate::scalar::{fabs, fadd, fdiv, fmax, fmul, fsub};
use crate::single::{Bits, HALF, MILLIONTH, MINUS_ONE, ONE, THOUSAND, TWO, clamped, is_finite, is_nan, last_digit, magnitude, negative, significand, unsigned, value, lemma_zero};

verus! {

/// `x` cut to what lies between two bounds.
pub open spec fn between(x: int, lo: int, hi: int) -> int {
    if x < lo {
        lo
    } else if x > hi {
        hi
    } else {
        x
    }
}

pub proof fn lemma_ends()
    ensures
        is_finite(0) && value(0) == 0,
        is_finite(ONE) && value(ONE) == one(),
        is_finite(TWO) && value(TWO) == 2 * one(),
{
    lemma_rails();
    lemma_one();
    lemma_zero(0);
    lemma2_to64();
    lemma_pow2_adds(23, 127);
    lemma_pow2_adds(1, 149);
    assert(unsigned(TWO) == TWO && !negative(TWO));
    assert(last_digit(TWO) == 127 && significand(TWO) == 0x80_0000);
}

// ---- Weights ----------------------------------------------------------------

/// A level fades in on a straight line: nothing up to the floor, all from a fade's width
/// above it on, and in between the part of the way that it has come, up to rounding.
pub proof fn law_fade_in_is_straight(db: Bits, floor: Bits, fade: Bits)
    requires
        is_finite(db),
        is_finite(floor),
        is_finite(fade),
        one() <= value(fade) <= 4096 * one(),
        -(4096 * one()) <= value(db) - value(floor) <= 4096 * one(),
    ensures
        ({
            let v = value(faded(db, floor, fade));
            let way = between(value(db) - value(floor), 0, value(fade));
            &&& is_finite(faded(db, floor, fade))
            &&& 0 <= v <= one()
            &&& -(0x4000 * (fine() * value(fade))) <= v * value(fade) - way * one() <= 0x4000 * (fine() * value(fade))
        }),
{
    lemma_fine();
    let u = one();
    let g = fine();
    let w = value(fade);
    lemma_faded(db, floor, fade, 4096, 4096);
    assert(g * u <= g * w && 0 <= g * u) by (nonlinear_arith)
        requires
            0 < u <= w,
            g > 0,
    ;
}

/// The same with what the rounding of the difference and that of the quotient add: the
/// way is at most `n` and at most `m` times the fade.
proof fn lemma_faded(db: Bits, floor: Bits, fade: Bits, n: int, m: int)
    requires
        is_finite(db),
        is_finite(floor),
        is_finite(fade),
        one() <= value(fade),
        0 <= n <= 4096,
        0 <= m <= 4096,
        -(n * one()) <= value(db) - value(floor) <= n * one(),
        -(m * value(fade)) <= value(db) - value(floor) <= m * value(fade),
    ensures
        ({
            let v = value(faded(db, floor, fade));
            let way = between(value(db) - value(floor), 0, value(fade));
            let e = (n + 1) * (fine() * one()) + (m + 2) * (fine() * value(fade));
            &&& is_finite(faded(db, floor, fade))
            &&& 0 <= v <= one()
            &&& -e <= v * value(fade) - way * one() <= e
        }),
{
    lemma_fine();
    lemma_ends();
    let u = one();
    let g = fine();
    let w = value(fade);
    let x = value(db) - value(floor);
    let d = fsub(db, floor);
    lemma_difference_off(db, floor, n);
    let y = value(d);
    assert((n + 1) * g <= w) by (nonlinear_arith)
        requires
            n <= 4096,
            g * 0x100_0000 <= w,
            g > 0,
    ;
    assert((m + 1) * w == m * w + w) by (nonlinear_arith);
    assert(-((m + 1) * w) <= y <= (m + 1) * w);
    lemma_quotient_off(d, fade, m + 1);
    let q = value(fdiv(d, fade));
    assert(-((n + 1) * (g * u)) <= y * u - x * u <= (n + 1) * (g * u)) by (nonlinear_arith)
        requires
            -((n + 1) * g) <= y - x <= (n + 1) * g,
            u > 0,
    ;
    let e = (n + 1) * (g * u) + (m + 2) * (g * w);
    assert(e >= 0) by (nonlinear_arith)
        requires
            e == (n + 1) * (g * u) + (m + 2) * (g * w),
            g > 0,
            u > 0,
            w > 0,
            n >= 0,
            m >= 0,
    ;
    assert(m + 1 + 1 == m + 2);
    assert(-e <= q * w - x * u <= e);
    assert(value(faded(db, floor, fade)) == between(q, 0, u));
    lemma_cut(q, x, u, w, e);
}

/// Cutting both sides of a proportion keeps it.
pub proof fn lemma_cut(q: int, x: int, u: int, w: int, e: int)
    requires
        u > 0,
        w > 0,
        e >= 0,
        -e <= q * w - x * u <= e,
    ensures
        -e <= between(q, 0, u) * w - between(x, 0, w) * u <= e,
{
    let a = between(q, 0, u);
    let b = between(x, 0, w);
    assert(-e <= a * w - b * u <= e) by (nonlinear_arith)
        requires
            u > 0,
            w > 0,
            e >= 0,
            -e <= q * w - x * u <= e,
            q < 0 ==> a == 0,
            q > u ==> a == u,
            0 <= q <= u ==> a == q,
            x < 0 ==> b == 0,
            x > w ==> b == w,
            0 <= x <= w ==> b == x,
    ;
}

// ---- Heights ----------------------------------------------------------------

/// What a part of the way down is drawn at.
proof fn lemma_down(top: Bits, t: Bits, height: Bits)
    requires
        is_finite(top) && is_finite(t) && is_finite(height),
        0 <= value(t) <= one(),
        -(0x1_0000 * one()) <= value(top) <= 0x1_0000 * one(),
        0 <= value(height) <= 0x1_0000 * one(),
    ensures
        ({
            let y = value(fadd(top, fmul(fsub(ONE, t), height)));
            let off = (y - value(top)) * one() - (one() - value(t)) * value(height);
            &&& is_finite(fadd(top, fmul(fsub(ONE, t), height)))
            &&& -(0x10_0000 * (fine() * one())) <= off <= 0x10_0000 * (fine() * one())
        }),
{
    lemma_fine();
    lemma_ends();
    let u = one();
    let g = fine();
    let h = value(height);
    let a = fsub(ONE, t);
    lemma_difference_off(ONE, t, 1);
    let x = value(a);
    let z = u - value(t);
    assert(-(2 * u) <= x <= 2 * u);
    assert(-(0x2_0000 * (u * u)) <= x * h <= 0x2_0000 * (u * u)) by (nonlinear_arith)
        requires
            -(2 * u) <= x <= 2 * u,
            0 <= h <= 0x1_0000 * u,
    ;
    lemma_product_off(a, height, 0x2_0000);
    let p = value(fmul(a, height));
    assert(-(0x2_0000 * (g * u)) <= x * h - z * h <= 0x2_0000 * (g * u)) by (nonlinear_arith)
        requires
            -(2 * g) <= x - z <= 2 * g,
            0 <= h <= 0x1_0000 * u,
            g > 0,
    ;
    assert(g * u * 0x100_0000 == u * u) by (nonlinear_arith)
        requires
            u == g * 0x100_0000,
    ;
    assert(-(0x3_0000 * u) <= p <= 0x3_0000 * u) by (nonlinear_arith)
        requires
            -(0x2_0001 * (g * u)) <= p * u - x * h <= 0x2_0001 * (g * u),
            -(0x2_0000 * (u * u)) <= x * h <= 0x2_0000 * (u * u),
            g * u * 0x100_0000 == u * u,
            u > 0,
    ;
    lemma_sum_off(top, fmul(a, height), 0x4_0000);
    let y = value(fadd(top, fmul(a, height)));
    assert(-(0x4_0001 * (g * u)) <= (y - value(top) - p) * u <= 0x4_0001 * (g * u)) by (nonlinear_arith)
        requires
            -(0x4_0001 * g) <= y - value(top) - p <= 0x4_0001 * g,
            u > 0,
    ;
    assert((y - value(top) - p) * u == (y - value(top)) * u - p * u) by (nonlinear_arith);
    assert(g * u > 0) by (nonlinear_arith)
        requires
            g > 0,
            u > 0,
    ;
}

/// The correlation plot is straight: full correlation is drawn at the top, inverted phase
/// at the bottom and the others in between, as far down as they fall short of one, up to
/// rounding.
pub proof fn law_correlation_plot_is_straight(c: Bits, top: Bits, height: Bits)
    requires
        is_finite(c) && is_finite(top) && is_finite(height),
        -one() <= value(c) <= one(),
        -(0x1_0000 * one()) <= value(top) <= 0x1_0000 * one(),
        0 <= value(height) <= 0x1_0000 * one(),
    ensures
        ({
            let y = value(plot_height(c, top, height));
            let off = 2 * ((y - value(top)) * one()) - (one() - value(c)) * value(height);
            -(0x40_0000 * (fine() * one())) <= off <= 0x40_0000 * (fine() * one())
        }),
{
    lemma_fine();
    lemma_ends();
    let u = one();
    let g = fine();
    let h = value(height);
    lemma_sum_off(c, ONE, 2);
    let s = fadd(c, ONE);
    lemma_quotient_off(s, TWO, 2);
    let q = value(fdiv(s, TWO));
    let a = value(s);
    assert(-(6 * g) <= 2 * q - a <= 6 * g) by (nonlinear_arith)
        requires
            -(3 * (g * (2 * u))) <= q * (2 * u) - a * u <= 3 * (g * (2 * u)),
            u > 0,
    ;
    let t = clamped(fdiv(s, TWO), 0, ONE);
    assert(value(t) == between(q, 0, u));
    assert(is_finite(t));
    let k = value(t);
    assert(-(9 * g) <= 2 * k - (value(c) + u) <= 9 * g);
    lemma_down(top, t, height);
    let y = value(plot_height(c, top, height));
    let n = u - value(c);
    assert(-(0x9_0000 * (g * u)) <= 2 * ((u - k) * h) - n * h <= 0x9_0000 * (g * u)) by (nonlinear_arith)
        requires
            -(9 * g) <= 2 * (u - k) - n <= 9 * g,
            0 <= h <= 0x1_0000 * u,
            g > 0,
    ;
    assert(g * u > 0) by (nonlinear_arith)
        requires
            g > 0,
            u > 0,
    ;
}

/// The spectrum is drawn on a straight scale of 90 decibels, from 6 at the top to -84 at
/// the bottom, and levels outside of it at its ends, up to rounding.
pub proof fn law_level_scale_is_straight(db: Bits, y: Bits, h: Bits)
    requires
        is_finite(db) && is_finite(y) && is_finite(h),
        -(0x200 * one()) <= value(db) <= 0x200 * one(),
        -(0x1_0000 * one()) <= value(y) <= 0x1_0000 * one(),
        0 <= value(h) <= 0x1_0000 * one(),
    ensures
        ({
            let v = value(level_height(db, y, h));
            let below = between(6 * one() - value(db), 0, 90 * one());
            let off = 90 * ((v - value(y)) * one()) - below * value(h);
            -(0x1000_0000 * (fine() * one())) <= off <= 0x1000_0000 * (fine() * one())
        }),
{
    lemma_fine();
    lemma_ends();
    lemma_one();
    lemma2_to64();
    lemma_pow2_adds(18, 131);
    let u = one();
    let g = fine();
    let b = pow2(131) as int;
    assert(u == 0x4_0000 * b);
    assert(unsigned(LINE_FLOOR) == 0x42a8_0000 && negative(LINE_FLOOR));
    assert(last_digit(LINE_FLOOR) == 132 && significand(LINE_FLOOR) == 0xa8_0000);
    assert(unsigned(LINE_SPAN) == LINE_SPAN && !negative(LINE_SPAN));
    assert(last_digit(LINE_SPAN) == 132 && significand(LINE_SPAN) == 0xb4_0000);
    lemma_pow2_adds(1, 131);
    assert(value(LINE_FLOOR) == -(84 * u));
    assert(value(LINE_SPAN) == 90 * u);
    lemma_faded(db, LINE_FLOOR, LINE_SPAN, 600, 8);
    let t = faded(db, LINE_FLOOR, LINE_SPAN);
    lemma_down(y, t, h);
    let k = value(t);
    let x = value(db) + 84 * u;
    let way = between(x, 0, 90 * u);
    let below = between(6 * u - value(db), 0, 90 * u);
    assert(below == 90 * u - way);
    assert(-(1501 * g) <= k * 90 - way <= 1501 * g) by (nonlinear_arith)
        requires
            -(601 * (g * u) + 10 * (g * (90 * u))) <= k * (90 * u) - way * u <= 601 * (g * u) + 10 * (g * (90 * u)),
            u > 0,
    ;
    let hh = value(h);
    let z = 90 * (u - k) - below;
    assert(-(1501 * (0x1_0000 * (g * u))) <= z * hh <= 1501 * (0x1_0000 * (g * u))) by (nonlinear_arith)
        requires
            -(1501 * g) <= z <= 1501 * g,
            0 <= hh <= 0x1_0000 * u,
            g > 0,
    ;
    assert(z * hh == 90 * ((u - k) * hh) - below * hh) by (nonlinear_arith)
        requires
            z == 90 * (u - k) - below,
    ;
    assert(g * u > 0) by (nonlinear_arith)
        requires
            g > 0,
            u > 0,
    ;
}

/// Samples are drawn on a straight scale: silence in the middle, full scale half the height
/// above and below it, what is beyond full scale at the edge, up to rounding.
pub proof fn law_samples_are_drawn_to_scale(a: Area, v: Bits)
    requires
        is_finite(a.mid) && is_finite(a.half) && is_finite(v),
        -(0x1_0000 * one()) <= value(a.mid) <= 0x1_0000 * one(),
        0 <= value(a.half) <= 0x1_0000 * one(),
    ensures
        ({
            let y = value(sample_y(a, v));
            let off = (value(a.mid) - y) * one() - between(value(v), -one(), one()) * value(a.half);
            -(0x10_0000 * (fine() * one())) <= off <= 0x10_0000 * (fine() * one())
        }),
{
    lemma_fine();
    lemma_ends();
    lemma_rails();
    lemma_one();
    let u = one();
    let g = fine();
    let c = clamped(v, MINUS_ONE, ONE);
    assert(is_finite(MINUS_ONE) && value(MINUS_ONE) == -u);
    let x = between(value(v), -u, u);
    assert(value(c) == x && is_finite(c));
    let h = value(a.half);
    assert(-(0x1_0000 * (u * u)) <= x * h <= 0x1_0000 * (u * u)) by (nonlinear_arith)
        requires
            -u <= x <= u,
            0 <= h <= 0x1_0000 * u,
            u > 0,
    ;
    lemma_product_off(c, a.half, 0x1_0000);
    let p = fmul(c, a.half);
    let q = value(p);
    assert(g * u * 0x100_0000 == u * u) by (nonlinear_arith)
        requires
            u == g * 0x100_0000,
    ;
    assert(-(0x2_0000 * u) <= q <= 0x2_0000 * u) by (nonlinear_arith)
        requires
            -(0x1_0001 * (g * u)) <= q * u - x * h <= 0x1_0001 * (g * u),
            -(0x1_0000 * (u * u)) <= x * h <= 0x1_0000 * (u * u),
            g * u * 0x100_0000 == u * u,
            u > 0,
    ;
    lemma_difference_off(a.mid, p, 0x3_0000);
    let m = value(a.mid);
    let y = value(sample_y(a, v));
    assert(-(0x3_0001 * (g * u)) <= (y - (m - q)) * u <= 0x3_0001 * (g * u)) by (nonlinear_arith)
        requires
            -(0x3_0001 * g) <= y - (m - q) <= 0x3_0001 * g,
            u > 0,
    ;
    assert((y - (m - q)) * u == q * u - (m - y) * u) by (nonlinear_arith);
    assert(g * u > 0) by (nonlinear_arith)
        requires
            g > 0,
            u > 0,
    ;
}

/// The guide follows the pointer: the amplitude at a height is its distance from the
/// middle as a part of half the height, up to rounding, between next to nothing and one.
pub proof fn law_guide_follows_pointer(y: Bits, h: Bits)
    requires
        is_finite(y) && is_finite(h),
        2 * one() <= value(h) <= 0x1_0000 * one(),
        0 <= value(y) <= value(h),
    ensures
        ({
            let a = value(amplitude_at(y, h));
            let far = if 2 * value(y) < value(h) {
                value(h) - 2 * value(y)
            } else {
                2 * value(y) - value(h)
            };
            let off = a * value(h) - far * one();
            &&& value(MILLIONTH) <= a <= one()
            &&& value(MILLIONTH) < a ==> -(0x8_0000 * (fine() * value(h))) <= off <= 0x8_0000 * (fine() * value(h))
        }),
{
    lemma_fine();
    lemma_ends();
    lemma_one();
    lemma2_to64();
    lemma_pow2_adds(1, 148);
    lemma_pow2_adds(23, 125);
    let u = one();
    let g = fine();
    assert(unsigned(HALF) == HALF && !negative(HALF));
    assert(last_digit(HALF) == 125 && significand(HALF) == 0x80_0000);
    let e = value(HALF);
    assert(2 * e == u);
    let w = value(h);
    let v = value(y);
    assert(0 <= w * e <= 0x8000 * (u * u)) by (nonlinear_arith)
        requires
            0 <= w <= 0x1_0000 * u,
            2 * e == u,
            u > 0,
    ;
    lemma_product_off(h, HALF, 0x8000);
    let mid = fmul(h, HALF);
    let m = value(mid);
    assert(-(0x1_0002 * g) <= 2 * m - w <= 0x1_0002 * g) by (nonlinear_arith)
        requires
            -(0x8001 * (g * u)) <= m * u - w * e <= 0x8001 * (g * u),
            2 * e == u,
            u > 0,
    ;
    assert(m > 0 && 4 * m >= w && 2 * m >= u);
    lemma_difference_off(mid, y, 0x1_0001);
    let d = fsub(mid, y);
    lemma_absolute(d);
    let f = fabs(d);
    let x = value(f);
    let far = if 2 * v < w {
        w - 2 * v
    } else {
        2 * v - w
    };
    assert(x == if value(d) < 0 { -value(d) } else { value(d) }) by {
        lemma_zero(d);
    }
    assert(-(0x4_0000 * g) <= 2 * x - far <= 0x4_0000 * g);
    lemma_guide(f, mid, w, far);
}

proof fn lemma_guide(f: Bits, mid: Bits, w: int, far: int)
    requires
        is_finite(f) && is_finite(mid),
        2 * one() <= w <= 0x1_0000 * one(),
        0 <= far <= w,
        -(0x1_0002 * fine()) <= 2 * value(mid) - w <= 0x1_0002 * fine(),
        -(0x4_0000 * fine()) <= 2 * value(f) - far <= 0x4_0000 * fine(),
        value(f) >= 0,
    ensures
        ({
            let a = value(clamped(fdiv(f, fmax(mid, ONE)), MILLIONTH, ONE));
            let off = a * w - far * one();
            &&& value(MILLIONTH) <= a <= one()
            &&& value(MILLIONTH) < a ==> -(0x8_0000 * (fine() * w)) <= off <= 0x8_0000 * (fine() * w)
        }),
{
    lemma_fine();
    lemma_ends();
    lemma_one();
    lemma2_to64();
    let u = one();
    let g = fine();
    let r = fmax(mid, ONE);
    let m = value(r);
    assert(is_finite(r));
    assert(-(0x1_0002 * g) <= 2 * m - w <= 0x1_0002 * g);
    let x = value(f);
    assert(0 <= x <= 3 * m);
    lemma_quotient_off(f, r, 3);
    let q = value(fdiv(f, r));
    // q m is x u, and twice that is q w and far u
    assert(-(8 * (g * m)) <= 2 * (q * m) - 2 * (x * u) <= 8 * (g * m));
    assert(unsigned(MILLIONTH) == MILLIONTH && !negative(MILLIONTH));
    assert(last_digit(MILLIONTH) == 106 && significand(MILLIONTH) == 0x86_37bd);
    lemma_pow2_adds(24, 106);
    lemma_pow2_strictly_increases(130, 149);
    let t = value(MILLIONTH);
    assert(0 < t < u) by {
        lemma_pow2_pos(106);
    }
    let a = value(clamped(fdiv(f, r), MILLIONTH, ONE));
    assert(a == between(q, t, u));
    assert(-(8 * u) <= q <= 8 * u);
    let s = 2 * m - w;
    assert(-(0x8_0010 * (g * u)) <= q * s <= 0x8_0010 * (g * u)) by (nonlinear_arith)
        requires
            -(0x1_0002 * g) <= s <= 0x1_0002 * g,
            -(8 * u) <= q <= 8 * u,
            g > 0,
            u > 0,
    ;
    assert(q * s == 2 * (q * m) - q * w) by (nonlinear_arith)
        requires
            s == 2 * m - w,
    ;
    let o = 2 * x - far;
    assert(-(0x4_0000 * (g * u)) <= o * u <= 0x4_0000 * (g * u)) by (nonlinear_arith)
        requires
            -(0x4_0000 * g) <= o <= 0x4_0000 * g,
            u > 0,
    ;
    assert(o * u == 2 * (x * u) - far * u) by (nonlinear_arith)
        requires
            o == 2 * x - far,
    ;
    assert(g * m <= g * w && 2 * (g * u) <= g * w && g * u > 0) by (nonlinear_arith)
        requires
            m <= w,
            2 * u <= w,
            g > 0,
            u > 0,
    ;
    let few = 0x8_0000 * (g * w);
    assert(-few <= q * w - far * u <= few);
    if q > u {
        assert(far * u <= w * u && u * w <= q * w) by (nonlinear_arith)
            requires
                0 <= far <= w,
                u < q,
                u > 0,
                w > 0,
        ;
        assert(u * w == w * u) by (nonlinear_arith);
    }
}

/// A meter is filled as far as the peak: full from full scale on, empty without a sound,
/// and in between in proportion, up to rounding.
pub proof fn law_meter_fills_in_proportion(peak: Bits, width: Bits)
    requires
        is_finite(peak) && is_finite(width),
        0 <= value(width) <= 0x1_0000 * one(),
    ensures
        ({
            let v = value(meter_width(peak, width));
            let off = v * one() - between(value(peak), 0, one()) * value(width);
            -(0x2_0000 * (fine() * one())) <= off <= 0x2_0000 * (fine() * one())
        }),
{
    lemma_fine();
    lemma_ends();
    lemma_one();
    let u = one();
    let g = fine();
    let top = crate::display::METER_TOP;
    assert(unsigned(top) == top && !negative(top) && unsigned(ONE) == ONE);
    assert(is_finite(top));
    crate::single::lemma_magnitude_order(ONE, top);
    lemma_zero(top);
    lemma_rails();
    assert(value(top) >= u);
    let c = clamped(peak, 0, top);
    assert(is_finite(c));
    crate::transfer::lemma_times_one(c);
    let x = between(value(peak), 0, u);
    let k = crate::scalar::fmin(fdiv(c, ONE), ONE);
    assert(value(k) == x && is_finite(k));
    let w = value(width);
    assert(0 <= x * w <= 0x1_0000 * (u * u)) by (nonlinear_arith)
        requires
            0 <= x <= u,
            0 <= w <= 0x1_0000 * u,
            u > 0,
    ;
    lemma_product_off(k, width, 0x1_0000);
    assert(g * u > 0) by (nonlinear_arith)
        requires
            g > 0,
            u > 0,
    ;
}

/// A time is shown with its whole thousandths, up to rounding.
pub proof fn law_thousandths_of_time(s: Bits)
    requires
        is_finite(s),
        0 <= value(s) <= 0x1000_0000 * one(),
    ensures
        ({
            let ms = thousandths(s);
            let x = 1000 * value(s);
            &&& (ms * one()) * 0x100_0000 <= x * 0x100_0001 + 0x100_0000
            &&& x * 0xff_ffff <= ((ms + 1) * one()) * 0x100_0000 + 0x100_0000
        }),
{
    lemma_fine();
    lemma_ends();
    lemma_one();
    lemma2_to64();
    lemma_pow2_adds(13, 136);
    let u = one();
    assert(unsigned(THOUSAND) == THOUSAND && !negative(THOUSAND));
    assert(last_digit(THOUSAND) == 135 && significand(THOUSAND) == 0xfa_0000);
    lemma_pow2_adds(14, 135);
    assert(value(THOUSAND) == 1000 * u);
    let x = value(s);
    lemma2_to64_rest();
    lemma_pow2_adds(40, 149);
    lemma_pow2_strictly_increases(189, 275);
    let big = pow2(275) as int;
    assert(x * (1000 * u) <= u * big) by (nonlinear_arith)
        requires
            0 <= x <= 0x1000_0000 * u,
            u * 0x100_0000_0000 <= big,
            u > 0,
    ;
    crate::accuracy::lemma_product_error(s, THOUSAND);
    let p = value(fmul(s, THOUSAND));
    let t = 1000 * x;
    let xt = x * (1000 * u);
    assert(xt == t * u) by (nonlinear_arith)
        requires
            xt == x * (1000 * u),
            t == 1000 * x,
    ;
    assert((p - t) * 0x100_0000 <= t + 0x100_0000 && -(t + 0x100_0000) <= (p - t) * 0x100_0000) by (nonlinear_arith)
        requires
            (p * u - t * u) * 0x100_0000 <= t * u + u * 0x100_0000,
            -(t * u + u * 0x100_0000) <= (p * u - t * u) * 0x100_0000,
            u > 0,
    ;
    let m = fmax(fmul(s, THOUSAND), 0);
    assert(value(m) == p);
    lemma_zero(m);
    let k = p / u;
    vstd::arithmetic::div_mod::lemma_fundamental_div_mod(p, u);
    vstd::arithmetic::div_mod::lemma_mod_bound(p, u);
    assert(0 <= k <= 0x8000_0000_0000) by (nonlinear_arith)
        requires
            u * k <= p,
            p < u * k + u,
            0 <= p,
            (p - t) * 0x100_0000 <= t + 0x100_0000,
            t <= 1000 * (0x1000_0000 * u),
            u >= 0x100_0000,
    ;
    assert(magnitude(m) == p && !is_nan(m));
    if negative(m) {
        assert(p == 0 && k == 0);
    } else {
        assert(thousandths(s) == k);
    }
    assert(u * k == k * u && (k + 1) * u == k * u + u) by (nonlinear_arith);
}

} // verus!
