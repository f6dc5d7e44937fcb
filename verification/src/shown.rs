//! What holds of what is heard and shown: mixes, interpolation, meters, the scope, and
//! where times, levels and samples lie on the screen.

use vstd::prelude::*;
use vstd::arithmetic::div_mod::*;
use vstd::arithmetic::power2::*;
use crate::accuracy::{fine, is_near, one, lemma_difference_off, lemma_difference_rounds, lemma_exact_sum, lemma_fine, lemma_near_cancel, lemma_near_difference, lemma_near_divisor, lemma_near_factor, lemma_near_product, lemma_near_quotient, lemma_one, lemma_product_off, lemma_quotient_off, lemma_small_number, lemma_sum_off};
use crate::arith::{number, lemma_ratio_pattern, lemma_sum};
use crate::columns::{highest, lowest};
use crate::curves::lemma_divided;
use crate::display::{Point, scope_dot};
use crate::dsp::lemma_rails;
use crate::envelope::{channel_sum, mono_mix, quick_mix};
use crate::playback::{Step, sample_between};
use crate::scalar::{fadd, fdiv, fmax, fmul, fsub, negated, lemma_negated};
use crate::single::{Bits, HALF, INFINITY, ONE, TWO, clamped, is_finite, last_digit, less, magnitude, negative, significand, unsigned, value, lemma_magnitude_order, lemma_zero};
use crate::transport::{METER_KEEPS, METER_REST, METER_TAKES, metered};
use crate::viewport::{Viewport, scroll_limit};
use crate::waveform::Waveform;

verus! {

// ---- Mixes ------------------------------------------------------------------

proof fn lemma_halves()
    ensures
        is_finite(TWO) && value(TWO) == 2 * one(),
        is_finite(HALF) && 2 * value(HALF) == one(),
        is_finite(ONE) && value(ONE) == one(),
        is_finite(number(2)) && value(number(2)) == 2 * one(),
        value(fdiv(ONE, number(2))) * 2 == one() && is_finite(fdiv(ONE, number(2))),
{
    lemma_one();
    lemma2_to64();
    lemma_pow2_adds(22, 127);
    lemma_pow2_adds(24, 125);
    lemma_pow2_adds(23, 126);
    assert(unsigned(TWO) == TWO && last_digit(TWO) == 127 && significand(TWO) == 0x80_0000);
    assert(unsigned(HALF) == HALF && last_digit(HALF) == 125 && significand(HALF) == 0x80_0000);
    assert(unsigned(ONE) == ONE && last_digit(ONE) == 126 && significand(ONE) == 0x80_0000);
    let a = pow2(127) as int;
    let b = pow2(125) as int;
    let c = pow2(126) as int;
    assert(value(TWO) == 0x80_0000 * a && one() == 0x40_0000 * a);
    assert(value(HALF) == 0x80_0000 * b && one() == 0x100_0000 * b);
    assert(value(ONE) == 0x80_0000 * c);
    lemma_small_number(2);
    lemma_pow2_unfold(149);
    let h = pow2(148) as int;
    assert(one() * one() == (1 * h) * (2 * one())) by (nonlinear_arith)
        requires
            one() == 2 * h,
    ;
    crate::accuracy::lemma_exact_quotient(ONE, number(2), 1, 148);
}

/// The mono mix of a stereo frame is the mean of its two samples, up to rounding, and so
/// is the quick one.
pub proof fn law_stereo_mix_is_mean(samples: Seq<Bits>, f: int)
    requires
        0 <= f < samples.len() / 2,
        is_finite(samples[f * 2]),
        is_finite(samples[f * 2 + 1]),
        magnitude(samples[f * 2]) <= 64 * one(),
        magnitude(samples[f * 2 + 1]) <= 64 * one(),
    ensures
        ({
            let l = value(samples[f * 2]);
            let r = value(samples[f * 2 + 1]);
            let mean = value(mono_mix(samples, 2)[f]);
            let quick = value(quick_mix(samples, 2)[f]);
            &&& -(1024 * fine()) <= 2 * mean - (l + r) <= 1024 * fine()
            &&& -(1024 * fine()) <= 2 * quick - (l + r) <= 1024 * fine()
        }),
{
    lemma_fine();
    lemma_halves();
    lemma_zero(0);
    let u = one();
    let g = fine();
    let a = samples[f * 2];
    let b = samples[f * 2 + 1];
    let l = value(a);
    let r = value(b);
    lemma_plus_nothing(a);
    let first = fadd(0, a);
    assert(channel_sum(samples, f * 2, 0) == 0);
    assert(channel_sum(samples, f * 2, 1) == first);
    lemma_sum_off(first, b, 128);
    let s = fadd(first, b);
    assert(channel_sum(samples, f * 2, 2) == s);
    let x = value(s);
    assert(-(129 * g) <= x - (l + r) <= 129 * g);
    lemma_quotient_off(s, number(2), 128);
    let q = value(fdiv(s, number(2)));
    assert(129 * (g * (2 * u)) == (258 * g) * u && q * (2 * u) - x * u == (2 * q - x) * u) by (nonlinear_arith);
    lemma_divided(2 * q - x, 258 * g, u);
    let h = fdiv(ONE, number(2));
    let hv = value(h);
    assert(-(129 * (u * u)) <= x * hv <= 129 * (u * u)) by (nonlinear_arith)
        requires
            -(129 * u) <= x <= 129 * u,
            2 * hv == u,
            u > 0,
    ;
    lemma_product_off(s, h, 129);
    let p = value(fmul(s, h));
    assert(130 * (g * u) == (130 * g) * u && 2 * (p * u - x * hv) == (2 * p - x) * u) by (nonlinear_arith)
        requires
            2 * hv == u,
    ;
    assert((260 * g) * u == 2 * ((130 * g) * u)) by (nonlinear_arith);
    lemma_divided(2 * p - x, 260 * g, u);
}

/// Something added to nothing keeps its value.
proof fn lemma_plus_nothing(x: Bits)
    requires
        is_finite(x),
    ensures
        is_finite(fadd(0, x)),
        is_finite(fadd(x, 0)),
        value(fadd(0, x)) == value(x),
        value(fadd(x, 0)) == value(x),
{
    lemma_zero(0);
    lemma_zero(x);
    assert(unsigned(0) == 0);
    lemma_sum(0, x);
    lemma_sum(x, 0);
    crate::arith::lemma_pattern_exact(x);
    crate::arith::lemma_infinity();
    lemma_magnitude_order(x, INFINITY);
    assert(unsigned(INFINITY) == INFINITY);
    lemma_zero(fadd(0, x));
    lemma_zero(fadd(x, 0));
}

// ---- Extremes ---------------------------------------------------------------

/// The extremes of a stretch are samples of it.
pub proof fn law_extremes_are_samples(s: Seq<Bits>, a: int, b: int)
    requires
        0 <= a < b <= s.len(),
        forall|i: int| a <= i < b ==> is_finite(#[trigger] s[i]),
    ensures
        exists|i: int| a <= i < b && #[trigger] s[i] == highest(s, a, b),
        exists|i: int| a <= i < b && #[trigger] s[i] == lowest(s, a, b),
    decreases b - a,
{
    let x = s[b - 1];
    crate::arith::lemma_infinity();
    assert(is_finite(x));
    lemma_magnitude_order(x, INFINITY);
    let below: Bits = 0xff80_0000;
    lemma_magnitude_order(x, below);
    assert(unsigned(INFINITY) == INFINITY && unsigned(below) == INFINITY);
    if a < b - 1 {
        law_extremes_are_samples(s, a, b - 1);
        let i = choose|i: int| a <= i < b - 1 && #[trigger] s[i] == highest(s, a, b - 1);
        let j = choose|j: int| a <= j < b - 1 && #[trigger] s[j] == lowest(s, a, b - 1);
        if less(highest(s, a, b - 1), x) {
            assert(s[b - 1] == highest(s, a, b));
        } else {
            assert(s[i] == highest(s, a, b));
        }
        if less(x, lowest(s, a, b - 1)) {
            assert(s[b - 1] == lowest(s, a, b));
        } else {
            assert(s[j] == lowest(s, a, b));
        }
    } else {
        assert(highest(s, a, a) == crate::columns::MINUS_INFINITY);
        assert(lowest(s, a, a) == INFINITY);
        assert(s[b - 1] == highest(s, a, b));
        assert(s[b - 1] == lowest(s, a, b));
    }
}

// ---- Between two frames -----------------------------------------------------

/// Between two frames the sound runs in a straight line: at a part `p` of the way from
/// `a` to `b` it is `a + (b - a) p`, up to rounding. Past the last frame it stays.
pub proof fn law_interpolation_is_straight(src: Seq<Bits>, ch: nat, frames: nat, at: Step, c: nat)
    requires
        ({
            let a = src[(at.index * ch + c) as int];
            let b = src[((at.index + 1) * ch + c) as int];
            &&& is_finite(a) && magnitude(a) <= 16 * one()
            &&& at.index + 1 < frames ==> is_finite(b) && magnitude(b) <= 16 * one()
        }),
        is_finite(at.frac),
        0 <= value(at.frac) <= one(),
    ensures
        ({
            let a = value(src[(at.index * ch + c) as int]);
            let b = value(src[((at.index + 1) * ch + c) as int]);
            let v = sample_between(src, ch, frames, at, c);
            &&& is_finite(v)
            &&& at.index + 1 < frames ==> -(256 * (fine() * one())) <= value(v) * one() - (a * one() + (b - a) * value(
                at.frac,
            )) <= 256 * (fine() * one())
            &&& at.index + 1 >= frames ==> value(v) == a
        }),
{
    lemma_fine();
    let u = one();
    let g = fine();
    let a = src[(at.index * ch + c) as int];
    let f = value(at.frac);
    let x = value(a);
    if at.index + 1 < frames {
        let b = src[((at.index + 1) * ch + c) as int];
        let y = value(b);
        lemma_difference_off(b, a, 32);
        let d = fsub(b, a);
        let z = value(d);
        assert(-(33 * g) <= z - (y - x) <= 33 * g);
        assert(-(34 * (u * u)) <= z * f <= 34 * (u * u)) by (nonlinear_arith)
            requires
                -(34 * u) <= z <= 34 * u,
                0 <= f <= u,
        ;
        lemma_product_off(d, at.frac, 34);
        let p = fmul(d, at.frac);
        let pv = value(p);
        let w = g * u;
        assert(-(35 * w) <= pv * u - z * f <= 35 * w);
        let e = z - (y - x);
        assert(z * f == (y - x) * f + e * f) by (nonlinear_arith)
            requires
                e == z - (y - x),
        ;
        assert(-(33 * w) <= e * f <= 33 * w) by (nonlinear_arith)
            requires
                -(33 * g) <= e <= 33 * g,
                0 <= f <= u,
                w == g * u,
                g > 0,
        ;
        assert(-(36 * u) <= pv <= 36 * u) by {
            assert(35 * w <= u * u) by (nonlinear_arith)
                requires
                    w == g * u,
                    u == g * 0x100_0000,
                    g > 0,
            ;
            assert((36 * u) * u == 36 * (u * u)) by (nonlinear_arith);
            lemma_divided(pv, 36 * u, u);
        }
        lemma_sum_off(a, p, 52);
        let r = value(fadd(a, p));
        let h = r - (x + pv);
        assert(-(53 * w) <= h * u <= 53 * w) by (nonlinear_arith)
            requires
                -(53 * g) <= h <= 53 * g,
                w == g * u,
                u > 0,
        ;
        assert(r * u == x * u + pv * u + h * u) by (nonlinear_arith)
            requires
                h == r - (x + pv),
        ;
    } else {
        lemma_negated(a);
        lemma_exact_sum(a, negated(a), 0, 149);
        assert(0 * pow2(149) == 0);
        let d = fsub(a, a);
        assert(0 * f == 0);
        assert(0 * (u * u) == 0);
        lemma_product_off(d, at.frac, 0);
        let p = fmul(d, at.frac);
        lemma_nothing_times(d, at.frac);
        lemma_zero(p);
        lemma_same_sum(a, p);
    }
}

pub proof fn lemma_nothing_times(d: Bits, f: Bits)
    requires
        is_finite(d),
        is_finite(f),
        value(d) == 0,
    ensures
        is_finite(fmul(d, f)),
        value(fmul(d, f)) == 0,
{
    lemma_one();
    lemma_zero(d);
    let num = magnitude(d) * magnitude(f);
    assert(num == 0) by (nonlinear_arith)
        requires
            num == magnitude(d) * magnitude(f),
            magnitude(d) == 0,
    ;
    lemma_ratio_pattern(0, pow2(149), negative(d) != negative(f));
    crate::rounding::lemma_ratio_between(0, pow2(149), 0, 24);
    crate::accuracy::lemma_exact(0, 0);
    assert(0 * pow2(0) == 0 && 0 * pow2(149) == 0);
    lemma_pow2_pos(277);
}

/// What adds nothing.
proof fn lemma_same_sum(a: Bits, z: Bits)
    requires
        is_finite(a),
        is_finite(z),
        value(z) == 0,
    ensures
        is_finite(fadd(a, z)),
        value(fadd(a, z)) == value(a),
{
    lemma_zero(a);
    lemma_zero(z);
    lemma_sum(a, z);
    crate::arith::lemma_pattern_exact(a);
    crate::arith::lemma_infinity();
    lemma_magnitude_order(a, INFINITY);
    assert(unsigned(INFINITY) == INFINITY);
    lemma_zero(fadd(a, z));
}

// ---- The scope --------------------------------------------------------------

/// In the scope mono stands upright and inverted phase lies flat: two equal channels put
/// their dot right above or below the centre, two opposite ones right beside it.
pub proof fn law_scope_axes(centre: Point, radius: Bits, l: Bits)
    requires
        is_finite(centre.x),
        is_finite(centre.y),
        is_finite(radius),
        is_finite(l),
    ensures
        value(scope_dot(centre, radius, l, l).x) == value(centre.x),
        value(scope_dot(centre, radius, l, negated(l)).y) == value(centre.y),
        value(scope_dot(centre, radius, negated(l), l).y) == value(centre.y),
{
    lemma_negated(l);
    lemma_negated(negated(l));
    assert(0 * pow2(149) == 0);
    lemma_exact_sum(l, negated(l), 0, 149);
    lemma_exact_sum(negated(l), l, 0, 149);
    let diagonal = crate::display::DIAGONAL;
    assert(unsigned(diagonal) == diagonal);
    let d = fsub(l, l);
    lemma_nothing_times(d, diagonal);
    lemma_nothing_times(fmul(d, diagonal), radius);
    lemma_same_sum(centre.x, fmul(fmul(d, diagonal), radius));
    let a = fadd(l, negated(l));
    lemma_nothing_times(a, diagonal);
    lemma_nothing_times(fmul(a, diagonal), radius);
    let p = fmul(fmul(a, diagonal), radius);
    lemma_negated(p);
    lemma_same_sum(centre.y, negated(p));
    let b = fadd(negated(l), l);
    lemma_nothing_times(b, diagonal);
    lemma_nothing_times(fmul(b, diagonal), radius);
    let q = fmul(fmul(b, diagonal), radius);
    lemma_negated(q);
    lemma_same_sum(centre.y, negated(q));
}

// ---- Meters -----------------------------------------------------------------

/// A meter jumps up to a peak and falls slowly: it takes 17 parts of the higher one of
/// itself and the peak and 3 parts of the peak, up to rounding, and rests when next to
/// nothing is left.
pub proof fn law_meter_jumps_and_falls(m: Bits, peak: Bits)
    requires
        is_finite(m),
        is_finite(peak),
        0 <= value(m) <= 16 * one(),
        0 <= value(peak) <= 16 * one(),
    ensures
        ({
            let top = if value(m) < value(peak) { value(peak) } else { value(m) };
            let v = value(metered(m, peak));
            let wanted = 17 * top + 3 * value(peak);
            ||| -(4096 * fine()) <= 20 * v - wanted <= 4096 * fine()
            ||| v == 0 && wanted <= one() / 256
        }),
{
    lemma_fine();
    lemma_one();
    lemma2_to64();
    let u = one();
    let g = fine();
    lemma_pow2_adds(24, 125);
    lemma_pow2_adds(26, 123);
    let e = pow2(123) as int;
    lemma_pow2_adds(2, 123);
    assert(unsigned(METER_KEEPS) == METER_KEEPS && last_digit(METER_KEEPS) == 125 && significand(METER_KEEPS)
        == 0xd9_999a) by {
        assert(unsigned(METER_KEEPS) / 0x80_0000 == 126);
    }
    assert(unsigned(METER_TAKES) == METER_TAKES && last_digit(METER_TAKES) == 123 && significand(METER_TAKES)
        == 0x99_999a) by {
        assert(unsigned(METER_TAKES) / 0x80_0000 == 124);
    }
    let keeps = value(METER_KEEPS);
    let takes = value(METER_TAKES);
    assert(keeps == 0xd9_999a * g);
    assert(takes == 0x99_999a * e && g == 4 * e);
    let high = fmax(m, peak);
    let t = value(high);
    let p = value(peak);
    assert(0 <= t <= 16 * u && p <= t);
    assert(-(20 * g) <= 20 * keeps - 17 * u <= 20 * g);
    assert(-(20 * g) <= 20 * takes - 3 * u <= 20 * g);
    assert(0 <= t * keeps <= 16 * (u * u) && 0 <= p * takes <= 16 * (u * u)) by (nonlinear_arith)
        requires
            0 <= t <= 16 * u,
            0 <= p <= 16 * u,
            0 <= keeps <= u,
            0 <= takes <= u,
    ;
    lemma_product_off(high, METER_KEEPS, 16);
    lemma_product_off(peak, METER_TAKES, 16);
    let a = value(fmul(high, METER_KEEPS));
    let b = value(fmul(peak, METER_TAKES));
    let w = g * u;
    assert(-((700 * g) * u) <= (20 * a - 17 * t) * u <= (700 * g) * u) by (nonlinear_arith)
        requires
            -(17 * w) <= a * u - t * keeps <= 17 * w,
            -(20 * g) <= 20 * keeps - 17 * u <= 20 * g,
            0 <= t <= 16 * u,
            w == g * u,
            g > 0,
    ;
    assert(-((700 * g) * u) <= (20 * b - 3 * p) * u <= (700 * g) * u) by (nonlinear_arith)
        requires
            -(17 * w) <= b * u - p * takes <= 17 * w,
            -(20 * g) <= 20 * takes - 3 * u <= 20 * g,
            0 <= p <= 16 * u,
            w == g * u,
            g > 0,
    ;
    lemma_divided(20 * a - 17 * t, 700 * g, u);
    lemma_divided(20 * b - 3 * p, 700 * g, u);
    assert(-(18 * u) <= a + b <= 18 * u);
    lemma_sum_off(fmul(high, METER_KEEPS), fmul(peak, METER_TAKES), 18);
    let v = fadd(fmul(high, METER_KEEPS), fmul(peak, METER_TAKES));
    if less(v, METER_REST) {
        lemma_zero(0);
        assert(unsigned(METER_REST) == METER_REST && last_digit(METER_REST) == 112 && significand(METER_REST)
            == 0xd1_b717) by {
            assert(unsigned(METER_REST) / 0x80_0000 == 113);
        }
        lemma_pow2_adds(13, 112);
        assert(value(METER_REST) == 0xd1_b717 * pow2(112) && g == 0x2000 * pow2(112));
    }
}

// ---- Times on the screen ----------------------------------------------------

/// A time is drawn where it lies in the window: as far from the left edge, as a part of
/// the width, as from the start of the window as a part of its length, up to a 4096th of
/// the width.
pub proof fn law_times_are_drawn_in_place(wave: Waveform, t: Bits, w: Bits)
    requires
        is_finite(t),
        is_finite(wave.scroll),
        is_finite(w),
        is_finite(wave.visible()),
        one() <= 1024 * value(wave.visible()),
        value(wave.visible()) <= 0x100_0000 * one(),
        one() <= value(w) <= 0x1_0000 * one(),
        -(2 * value(wave.visible())) <= value(t) - value(wave.scroll) <= 2 * value(wave.visible()),
    ensures
        ({
            let v = value(wave.visible());
            let x = value(wave.place(t, w));
            let off = x * v - (value(t) - value(wave.scroll)) * value(w);
            is_finite(wave.place(t, w)) && -(value(w) * v) <= 4096 * off <= value(w) * v
        }),
{
    lemma_fine();
    let u = one();
    let g = fine();
    let v = value(wave.visible());
    let wide = value(w);
    let s = value(t) - value(wave.scroll);
    let m = 2 * v / u + 1;
    lemma_fundamental_div_mod(2 * v, u);
    lemma_mod_bound(2 * v, u);
    lemma_div_pos_is_pos(2 * v, u);
    let k = 2 * v / u;
    assert(m * u >= 2 * v && k * u <= 2 * v) by (nonlinear_arith)
        requires
            m == k + 1,
            2 * v == u * k + (2 * v) % u,
            0 <= (2 * v) % u < u,
    ;
    assert(k <= 0x200_0000) by (nonlinear_arith)
        requires
            k * u <= 2 * v,
            v <= 0x100_0000 * u,
            u > 0,
    ;
    lemma_difference_off(t, wave.scroll, m);
    let d = fsub(t, wave.scroll);
    let dv = value(d);
    let e1 = dv - s;
    assert((m + 1) * g <= 2 * g + k * g) by (nonlinear_arith)
        requires
            m == k + 1,
    ;
    assert((k * g) * 0x100_0000 <= 2 * v) by (nonlinear_arith)
        requires
            k * u <= 2 * v,
            u == g * 0x100_0000,
    ;
    assert(g * 0x4000 <= v);
    assert(-v <= 8000 * e1 <= v);
    lemma_quotient_off(d, wave.visible(), 3);
    let q = fdiv(d, wave.visible());
    let qv = value(q);
    let e2 = qv * v - dv * u;
    let gv = g * v;
    assert(-(4 * gv) <= e2 <= 4 * gv);
    let n = 8 * (wide / u + 1);
    lemma_fundamental_div_mod(wide, u);
    lemma_mod_bound(wide, u);
    lemma_div_pos_is_pos(wide, u);
    let j = wide / u;
    assert(j * u <= wide && wide <= (j + 1) * u) by (nonlinear_arith)
        requires
            wide == u * j + wide % u,
            0 <= wide % u < u,
    ;
    assert(j <= 0x1_0000) by (nonlinear_arith)
        requires
            j * u <= wide,
            wide <= 0x1_0000 * u,
            u > 0,
    ;
    assert(-(n * (u * u)) <= qv * wide <= n * (u * u)) by (nonlinear_arith)
        requires
            -(8 * u) <= qv <= 8 * u,
            0 <= wide <= (j + 1) * u,
            n == 8 * (j + 1),
            u > 0,
    ;
    lemma_product_off(q, w, n);
    let p = value(wave.place(t, w));
    let e3 = p * u - qv * wide;
    let wv = wide * v;
    let gwv = g * wv;
    assert(-(17 * gwv) <= e3 * v <= 17 * gwv) by (nonlinear_arith)
        requires
            -((n + 1) * (g * u)) <= e3 <= (n + 1) * (g * u),
            n == 8 * (j + 1),
            j * u <= wide,
            u <= wide,
            gwv == g * wv,
            wv == wide * v,
            v > 0,
            g > 0,
    ;
    assert(-(4 * gwv) <= wide * e2 <= 4 * gwv) by (nonlinear_arith)
        requires
            -(4 * gv) <= e2 <= 4 * gv,
            gv == g * v,
            gwv == g * wv,
            wv == wide * v,
            wide > 0,
    ;
    let off = p * v - s * wide;
    assert(off * u == (wide * e1) * u + wide * e2 + e3 * v) by (nonlinear_arith)
        requires
            off == p * v - s * wide,
            e1 == dv - s,
            e2 == qv * v - dv * u,
            e3 == p * u - qv * wide,
    ;
    assert(-wv <= 8000 * (wide * e1) <= wv) by (nonlinear_arith)
        requires
            -v <= 8000 * e1 <= v,
            wv == wide * v,
            wide > 0,
    ;
    let we = wide * e1;
    assert(wv > 0) by (nonlinear_arith)
        requires
            wv == wide * v,
            wide > 0,
            v > 0,
    ;
    assert(-(wv * u) <= 4096 * (off * u) <= wv * u) by (nonlinear_arith)
        requires
            off * u == we * u + wide * e2 + e3 * v,
            -(17 * gwv) <= e3 * v <= 17 * gwv,
            -(4 * gwv) <= wide * e2 <= 4 * gwv,
            -wv <= 8000 * we <= wv,
            gwv == g * wv,
            u == g * 0x100_0000,
            wv > 0,
            g > 0,
    ;
    assert((4096 * off) * u == 4096 * (off * u)) by (nonlinear_arith);
    lemma_divided(4096 * off, wv, u);
}

/// The time under a place of the screen is as far into the window as the place is into
/// the width, up to roundings, and never outside of the file.
pub proof fn law_places_stand_for_times(wave: Waveform, x: Bits, w: Bits)
    requires
        is_finite(x),
        is_finite(w),
        is_finite(wave.scroll),
        is_finite(wave.duration),
        is_finite(wave.visible()),
        0 <= value(wave.scroll) <= 0x10_0000 * one(),
        0 <= value(wave.visible()) <= 0x10_0000 * one(),
        0 <= value(wave.duration),
        one() <= value(w) <= 0x1_0000 * one(),
        0 <= value(x) <= value(w),
    ensures
        ({
            let t = value(wave.time(x, w));
            let v = value(wave.visible());
            let few = (value(wave.scroll) + v + one()) / 0x10_0000 + 1;
            let off = (t - value(wave.scroll)) * value(w) - value(x) * v;
            &&& 0 <= t <= value(wave.duration)
            &&& 0 < t < value(wave.duration) ==> -(few * value(w)) <= off <= few * value(w)
        }),
{
    lemma_fine();
    lemma_zero(0);
    let u = one();
    let g = fine();
    let v = value(wave.visible());
    let wide = value(w);
    let xv = value(x);
    let s = value(wave.scroll);
    lemma_quotient_off(x, w, 1);
    let q = fdiv(x, w);
    let qv = value(q);
    let gw = g * wide;
    let e1 = qv * wide - xv * u;
    assert(-(2 * gw) <= e1 <= 2 * gw);
    // the part of the window
    let a = v / u + 1;
    lemma_fundamental_div_mod(v, u);
    lemma_mod_bound(v, u);
    lemma_div_pos_is_pos(v, u);
    let ka = v / u;
    assert(ka * u <= v && v <= a * u) by (nonlinear_arith)
        requires
            a == ka + 1,
            v == u * ka + v % u,
            0 <= v % u < u,
    ;
    assert(ka <= 0x10_0000) by (nonlinear_arith)
        requires
            ka * u <= v,
            v <= 0x10_0000 * u,
            u > 0,
    ;
    let n = 2 * a;
    assert(-(2 * u) <= qv <= 2 * u) by (nonlinear_arith)
        requires
            -(2 * gw) <= qv * wide - xv * u <= 2 * gw,
            gw == g * wide,
            0 <= xv <= wide,
            wide > 0,
            u == g * 0x100_0000,
            g > 0,
    ;
    assert(-(n * (u * u)) <= qv * v <= n * (u * u)) by (nonlinear_arith)
        requires
            -(2 * u) <= qv <= 2 * u,
            0 <= v <= a * u,
            n == 2 * a,
            u > 0,
    ;
    lemma_product_off(q, wave.visible(), n);
    let p = fmul(q, wave.visible());
    let pv = value(p);
    let e2 = pv * u - qv * v;
    let gu = g * u;
    assert(-((n + 1) * gu) <= e2 <= (n + 1) * gu);
    assert((n + 1) * g <= 2 * (ka * g) + 3 * g) by (nonlinear_arith)
        requires
            n == 2 * ka + 2,
    ;
    assert((ka * g) * 0x100_0000 <= v) by (nonlinear_arith)
        requires
            ka * u <= v,
            u == g * 0x100_0000,
    ;
    // in seconds from the start of the file
    assert(-(3 * v + u) <= pv <= 3 * v + u) by {
        assert((3 * v + u) * u == 3 * (v * u) + u * u) by (nonlinear_arith);
        assert(-(2 * (v * u)) <= qv * v <= 2 * (v * u)) by (nonlinear_arith)
            requires
                -(2 * u) <= qv <= 2 * u,
                v >= 0,
        ;
        assert((n + 1) * gu <= v * u + u * u) by (nonlinear_arith)
            requires
                (n + 1) * g <= 2 * (ka * g) + 3 * g,
                (ka * g) * 0x100_0000 <= v,
                gu == g * u,
                u == g * 0x100_0000,
                g > 0,
                ka >= 0,
                v >= 0,
        ;
        assert(v * u >= 0) by (nonlinear_arith)
            requires
                v >= 0,
                u > 0,
        ;
        lemma_divided(pv, 3 * v + u, u);
    }
    let b = s / u + 3 * ka + 8;
    lemma_fundamental_div_mod(s, u);
    lemma_mod_bound(s, u);
    lemma_div_pos_is_pos(s, u);
    let ks = s / u;
    assert(ks * u <= s && s <= (ks + 1) * u) by (nonlinear_arith)
        requires
            s == u * ks + s % u,
            0 <= s % u < u,
    ;
    assert(ks <= 0x10_0000) by (nonlinear_arith)
        requires
            ks * u <= s,
            s <= 0x10_0000 * u,
            u > 0,
    ;
    assert(s + 3 * v + u <= b * u) by (nonlinear_arith)
        requires
            s <= (ks + 1) * u,
            v <= (ka + 1) * u,
            b == ks + 3 * ka + 8,
            u > 0,
    ;
    lemma_sum_off(wave.scroll, p, b);
    let r = fadd(wave.scroll, p);
    let rv = value(r);
    let e3 = rv - (s + pv);
    assert((b + 1) * g == ks * g + 3 * (ka * g) + 9 * g) by (nonlinear_arith)
        requires
            b == ks + 3 * ka + 8,
    ;
    assert((ks * g) * 0x100_0000 <= s) by (nonlinear_arith)
        requires
            ks * u <= s,
            u == g * 0x100_0000,
    ;
    let t = value(wave.time(x, w));
    assert(0 <= t <= value(wave.duration));
    if 0 < t < value(wave.duration) {
        assert(t == rv);
        let few = (s + v + u) / 0x10_0000 + 1;
        let off = (t - s) * wide - xv * v;
        // the three errors
        assert(off == e3 * wide + pv * wide - xv * v) by (nonlinear_arith)
            requires
                off == (t - s) * wide - xv * v,
                t - s == e3 + pv,
        ;
        assert(off * u == (e3 * wide) * u + (pv * wide) * u - (xv * v) * u) by (nonlinear_arith)
            requires
                off == e3 * wide + pv * wide - xv * v,
        ;
        assert((pv * wide) * u == e2 * wide + (qv * v) * wide) by (nonlinear_arith)
            requires
                e2 == pv * u - qv * v,
        ;
        assert((qv * v) * wide == e1 * v + (xv * v) * u) by (nonlinear_arith)
            requires
                e1 == qv * wide - xv * u,
        ;
        let most3 = ks * g + 3 * (ka * g) + 9 * g;
        let most2 = 2 * (ka * g) + 3 * g;
        let most1 = 2 * (ka * g) + 2 * g;
        assert(-((most3 * wide) * u) <= (e3 * wide) * u <= (most3 * wide) * u) by (nonlinear_arith)
            requires
                -most3 <= e3 <= most3,
                wide > 0,
                u > 0,
        ;
        assert(-((most2 * wide) * u) <= e2 * wide <= (most2 * wide) * u) by (nonlinear_arith)
            requires
                -((n + 1) * gu) <= e2 <= (n + 1) * gu,
                (n + 1) * g <= most2,
                gu == g * u,
                wide > 0,
                u > 0,
        ;
        assert(-((most1 * wide) * u) <= e1 * v <= (most1 * wide) * u) by (nonlinear_arith)
            requires
                -(2 * gw) <= e1 <= 2 * gw,
                gw == g * wide,
                0 <= v <= (ka + 1) * u,
                most1 == 2 * (ka * g) + 2 * g,
                wide > 0,
                g > 0,
        ;
        let all = most3 + most2 + most1;
        assert((all * wide) * u == (most3 * wide) * u + (most2 * wide) * u + (most1 * wide) * u) by (nonlinear_arith)
            requires
                all == most3 + most2 + most1,
        ;
        assert(all <= few) by {
            assert(all == ks * g + 7 * (ka * g) + 14 * g);
        }
        lemma_divided(off, all * wide, u);
        assert(all * wide <= few * wide) by (nonlinear_arith)
            requires
                all <= few,
                wide > 0,
        ;
    }
}

// ---- Zooming ----------------------------------------------------------------

/// Zooming keeps what is under the pointer, or the playhead, in its place on the screen:
/// its distance from the left edge, as a part of the window, is what it was, up to
/// rounding, wherever the new window does not hit an end of the file.
pub proof fn law_zoom_keeps_anchor(v: Viewport, zoom: Bits, anchor: Bits, duration: Bits)
    requires
        is_finite(duration) && is_finite(anchor) && is_finite(v.scroll) && is_finite(v.zoom) && is_finite(zoom),
        one() <= value(v.zoom) <= 0x10_0000 * one(),
        one() <= value(zoom) <= 0x10_0000 * one(),
        one() <= 1024 * value(duration),
        value(duration) <= 0x1000_0000 * one(),
        0 <= value(v.scroll),
        value(anchor) <= value(duration),
        // the anchor is on the screen
        one() <= 0x1000_0000 * (value(anchor) - value(v.scroll)),
        (value(anchor) - value(v.scroll)) * value(v.zoom) <= value(duration) * one(),
        // the new window hits no end of the file
        0 < value(v.around(zoom, anchor, duration).scroll),
        less(v.around(zoom, anchor, duration).scroll, scroll_limit(duration, zoom)),
    ensures
        ({
            let n = v.around(zoom, anchor, duration);
            let before = (value(anchor) - value(v.scroll)) * value(v.zoom);
            let after = (value(anchor) - value(n.scroll)) * value(n.zoom);
            let few = value(duration) * value(zoom);
            n.zoom == zoom && -few <= 0x10_0000 * (after - before) <= few
        }),
{
    lemma_fine();
    lemma_zero(0);
    lemma_rails();
    let u = one();
    let dv = value(duration);
    let z = value(v.zoom);
    let zn = value(zoom);
    let x = value(anchor) - value(v.scroll);
    lemma_zero(anchor);
    // the lengths of both windows
    lemma_window_length(duration, v.zoom);
    lemma_window_length(duration, zoom);
    let p1 = fdiv(duration, v.zoom);
    let p2 = fdiv(duration, zoom);
    let a = value(p1);
    let b = value(p2);
    // the distance
    assert(x <= 0x1000_0000 * u);
    assert(x >= 0x100_0000) by {
        lemma2_to64();
        lemma_pow2_strictly_increases(60, 149);
        lemma2_to64_rest();
    }
    lemma_near_difference(anchor, v.scroll);
    let d = fsub(anchor, v.scroll);
    let y = value(d);
    lemma_sizes(y, x, a, dv);
    lemma_near_quotient(d, p1);
    let q = fdiv(d, p1);
    let qv = value(q);
    let du = dv * u;
    assert(du > 0 && y * u >= 0 && dv > 0) by (nonlinear_arith)
        requires
            du == dv * u,
            1024 * dv >= u,
            u > 0,
            y >= 0,
    ;
    lemma_near_divisor(a, du, z, 1, qv, y * u, 1);
    assert((y * u) * z == (y * z) * u) by (nonlinear_arith);
    lemma_near_cancel(qv, y * z, dv, u, 3);
    assert(is_near(qv, y * z, dv, 3));
    lemma_near_factor(y, x, 1, 2, qv, z, dv, 3);
    assert(1 * dv == dv);
    assert(is_near(qv, x * z, dv, 6));
    // cut at one
    let place = clamped(q, 0, ONE);
    let pl = value(place);
    assert(is_finite(place) && pl >= 0 && is_near(pl, x * z, dv, 6)) by {
        if qv > u {
            assert(pl == u);
            assert(u * dv == dv * u && qv * dv >= u * dv) by (nonlinear_arith)
                requires
                    qv > u,
                    dv > 0,
            ;
        }
    }
    lemma_new_scroll(v, place, zoom, anchor, duration);
}

/// The length of a window.
proof fn lemma_window_length(duration: Bits, zoom: Bits)
    requires
        is_finite(duration),
        is_finite(zoom),
        one() <= value(zoom) <= 0x10_0000 * one(),
        one() <= 1024 * value(duration),
        value(duration) <= 0x1000_0000 * one(),
    ensures
        ({
            let p = value(fdiv(duration, zoom));
            &&& is_finite(fdiv(duration, zoom))
            &&& one() <= 0x8000_0000 * p
            &&& p <= 2 * value(duration)
            &&& is_near(p, value(duration) * one(), value(zoom), 1)
        }),
{
    lemma_fine();
    lemma2_to64();
    lemma2_to64_rest();
    lemma_pow2_strictly_increases(60, 149);
    lemma_one();
    let u = one();
    let d = value(duration);
    let z = value(zoom);
    assert(d * u >= z * 0x80_0000) by (nonlinear_arith)
        requires
            1024 * d >= u,
            z <= 0x10_0000 * u,
            u >= 0x1000_0000_0000_000,
    ;
    assert(d * u <= z * pow2(276)) by (nonlinear_arith)
        requires
            0 <= d <= 0x1000_0000 * u,
            z >= u,
            u * 0x1_0000_0000_0000_0000 < pow2(276),
            u > 0,
    ;
    lemma_near_quotient(duration, zoom);
    let p = value(fdiv(duration, zoom));
    let du = d * u;
    assert(p * z <= 2 * du && du <= 2 * (p * z)) by {
        assert(du >= 0) by (nonlinear_arith)
            requires
                du == d * u,
                d >= 0,
                u > 0,
        ;
    }
    assert(u <= 0x8000_0000 * p) by (nonlinear_arith)
        requires
            du <= 2 * (p * z),
            du == d * u,
            1024 * d >= u,
            z <= 0x10_0000 * u,
            u > 0,
            p >= 0,
    ;
    assert(p <= 2 * d) by (nonlinear_arith)
        requires
            p * z <= 2 * du,
            du == d * u,
            z >= u,
            u > 0,
            p >= 0,
            d >= 0,
    ;
}

/// A distance and a window are of a size that can be divided.
proof fn lemma_sizes(y: int, x: int, a: int, d: int)
    requires
        is_near(y, x, 1, 2),
        one() <= 0x1000_0000 * x,
        x <= 0x1000_0000 * one(),
        one() <= 0x8000_0000 * a,
        a <= 2 * d,
        d <= 0x1000_0000 * one(),
    ensures
        y * one() >= a * 0x80_0000,
        y * one() <= a * pow2(276),
        y > 0,
{
    lemma_fine();
    lemma2_to64();
    lemma2_to64_rest();
    lemma_pow2_strictly_increases(60, 149);
    lemma_pow2_adds(96, 149);
    lemma_pow2_adds(48, 48);
    lemma_pow2_adds(24, 24);
    lemma_pow2_strictly_increases(245, 276);
    let u = one();
    assert(u <= 0x2000_0000 * y && y <= 0x2000_0000 * u);
    assert(u >= 0x1000_0000_0000_0000 * 0x1000_0000_0000) by {
        lemma_pow2_adds(60, 44);
        lemma_pow2_strictly_increases(104, 149);
        lemma_pow2_adds(40, 4);
    }
    assert(y * u >= a * 0x80_0000) by (nonlinear_arith)
        requires
            u <= 0x2000_0000 * y,
            a <= 0x2000_0000 * u,
            u >= 0x1000_0000_0000_0000 * 0x1000_0000_0000,
    ;
    assert(y * u <= a * pow2(276)) by (nonlinear_arith)
        requires
            0 <= y <= 0x2000_0000 * u,
            u <= 0x8000_0000 * a,
            0x1_0000_0000_0000_0000 * u < pow2(276),
            u > 0,
            a > 0,
    ;
}

/// Where the window starts after a change of zoom.
proof fn lemma_new_scroll(v: Viewport, place: Bits, zoom: Bits, anchor: Bits, duration: Bits)
    requires
        is_finite(duration) && is_finite(anchor) && is_finite(place) && is_finite(zoom),
        place == clamped(fdiv(fsub(anchor, v.scroll), fdiv(duration, v.zoom)), 0, ONE),
        0 <= value(place) <= one(),
        one() <= value(v.zoom) <= 0x10_0000 * one(),
        one() <= value(zoom) <= 0x10_0000 * one(),
        one() <= 1024 * value(duration),
        value(duration) <= 0x1000_0000 * one(),
        0 <= value(v.scroll),
        0 <= value(anchor) <= value(duration),
        one() <= 0x1000_0000 * (value(anchor) - value(v.scroll)),
        (value(anchor) - value(v.scroll)) * value(v.zoom) <= value(duration) * one(),
        is_near(value(place), (value(anchor) - value(v.scroll)) * value(v.zoom), value(duration), 6),
        0 < value(v.around(zoom, anchor, duration).scroll),
        less(v.around(zoom, anchor, duration).scroll, scroll_limit(duration, zoom)),
    ensures
        ({
            let n = v.around(zoom, anchor, duration);
            let before = (value(anchor) - value(v.scroll)) * value(v.zoom);
            let after = (value(anchor) - value(n.scroll)) * value(n.zoom);
            let few = value(duration) * value(zoom);
            n.zoom == zoom && -few <= 0x10_0000 * (after - before) <= few
        }),
{
    lemma_fine();
    lemma2_to64();
    lemma2_to64_rest();
    lemma_zero(0);
    let u = one();
    let dv = value(duration);
    let z = value(v.zoom);
    let zn = value(zoom);
    let x = value(anchor) - value(v.scroll);
    let pl = value(place);
    let xz = x * z;
    lemma_window_length(duration, zoom);
    let p2 = fdiv(duration, zoom);
    let b = value(p2);
    // the place is not very small
    assert(xz * 0x1000_0000 >= u * u && xz <= dv * u) by (nonlinear_arith)
        requires
            xz == x * z,
            xz <= dv * u,
            u <= 0x1000_0000 * x,
            z >= u,
            u > 0,
    ;
    let pd = pl * dv;
    assert(2 * pd >= xz) by {
        assert(-(6 * xz) <= (pd - xz) * 0x100_0000);
    }
    assert(pl * 0x400_0000_0000_0000 >= u) by (nonlinear_arith)
        requires
            2 * pd >= xz,
            pd == pl * dv,
            xz * 0x1000_0000 >= u * u,
            dv <= 0x1000_0000 * u,
            u > 0,
            pl >= 0,
    ;
    assert(pl > 0);
    assert(pl * b >= u * 0x80_0000) by {
        lemma_pow2_adds(60, 56);
        lemma_pow2_adds(40, 16);
        lemma_pow2_strictly_increases(116, 149);
        assert(u >= 0x400_0000_0000_0000 * 0x8000_0000 * 0x80_0000) by {
            lemma_pow2_adds(58, 31);
            lemma_pow2_adds(89, 23);
            lemma_pow2_strictly_increases(112, 149);
        }
        assert(pl * b >= u * 0x80_0000) by (nonlinear_arith)
            requires
                pl * 0x400_0000_0000_0000 >= u,
                b * 0x8000_0000 >= u,
                u >= 0x400_0000_0000_0000 * 0x8000_0000 * 0x80_0000,
        ;
    }
    assert(pl * b <= u * pow2(276)) by (nonlinear_arith)
        requires
            0 <= pl <= u,
            0 <= b <= 0x2000_0000 * u,
            0x1_0000_0000_0000_0000 * u < pow2(276),
            u > 0,
    ;
    lemma_near_product(place, p2);
    let m = fmul(place, p2);
    let mv = value(m);
    let du = dv * u;
    assert(du > 0 && dv > 0) by (nonlinear_arith)
        requires
            du == dv * u,
            1024 * dv >= u,
            u > 0,
    ;
    assert(pl * b == b * pl) by (nonlinear_arith);
    lemma_near_factor(b, du, zn, 1, mv, pl, u, 1);
    assert(du * pl == (dv * pl) * u) by (nonlinear_arith)
        requires
            du == dv * u,
    ;
    lemma_near_cancel(mv, dv * pl, zn, u, 3);
    assert(dv * pl == pl * dv) by (nonlinear_arith);
    assert(xz >= 0);
    lemma_near_factor(pl, xz, dv, 6, mv, dv, zn, 3);
    assert(dv * zn == zn * dv) by (nonlinear_arith);
    lemma_near_cancel(mv, xz, zn, dv, 10);
    // the new start
    let raw = fsub(anchor, m);
    let mz = mv * zn;
    assert(mz <= 2 * xz);
    assert(mv <= 2 * dv) by (nonlinear_arith)
        requires
            mz <= 2 * xz,
            mz == mv * zn,
            xz <= dv * u,
            zn >= u,
            u > 0,
            mv >= 0,
            dv > 0,
    ;
    lemma_difference_rounds(anchor, m);
    let n = v.around(zoom, anchor, duration);
    assert(value(n.scroll) == value(raw));
    let e = value(raw) - (value(anchor) - mv);
    assert(dv >= 0x100_0000) by {
        lemma_pow2_strictly_increases(60, 149);
    }
    assert(-(4 * dv) <= e * 0x100_0000 <= 4 * dv);
    let after = (value(anchor) - value(n.scroll)) * zn;
    assert(after - xz == (mz - xz) - e * zn) by (nonlinear_arith)
        requires
            after == (mv - e) * zn,
            mz == mv * zn,
            value(anchor) - value(n.scroll) == mv - e,
    ;
    let few = dv * zn;
    assert(-(4 * few) <= (e * zn) * 0x100_0000 <= 4 * few) by (nonlinear_arith)
        requires
            -(4 * dv) <= e * 0x100_0000 <= 4 * dv,
            few == dv * zn,
            zn > 0,
    ;
    assert(xz <= few) by (nonlinear_arith)
        requires
            xz <= dv * u,
            few == dv * zn,
            zn >= u,
            dv > 0,
    ;
    assert(-(10 * xz) <= (mz - xz) * 0x100_0000 <= 10 * xz);
}

} // verus!
