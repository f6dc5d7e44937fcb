//! What curves and peaks are measured by: the gain of a preview, the peak of a zone, the
//! scale of a curve, the length of a chord, and the bands that are smoothed together.

use vstd::prelude::*;
use vstd::arithmetic::power2::*;
use crate::accuracy::{fine, is_near, one, lemma_fine, lemma_near_magnitude, lemma_near_quotient, lemma_one, lemma_quotient_off, lemma_small_number, lemma_times};
use crate::arith::number;
use crate::audio_io::gained_peak;
use crate::correlation::smoothing;
use crate::detect::scaled_by;
use crate::dsp::lemma_absolute;
use crate::envelope::bucket_size;
use crate::heights::{between, lemma_cut, lemma_ends};
use crate::plan::least;
use crate::preview::{envelope_peak, measured_buckets, preview_gain_of};
use crate::scalar::{fabs, fdiv, fmul, raised, truncated};
use crate::single::{Bits, MILLIONTH, at_most_index, is_finite, is_nan, last_digit, less, magnitude, negative, significand, unsigned, value, lemma_zero};
use crate::structure::unit_chord;
use crate::windows::lemma_large;

verus! {

// ---- Peaks ------------------------------------------------------------------

/// The peak of an envelope is the largest of its values, whatever their sign.
pub proof fn law_envelope_peak_is_largest(env: Seq<(Bits, Bits)>, a: int, b: int)
    requires
        forall|i: int| a <= i < b ==> !is_nan((#[trigger] env[i]).0) && !is_nan(env[i].1),
    ensures
        !is_nan(envelope_peak(env, a, b)),
        value(envelope_peak(env, a, b)) >= 0,
        forall|i: int|
            a <= i < b ==> magnitude((#[trigger] env[i]).0) <= value(envelope_peak(env, a, b)) && magnitude(env[i].1)
                <= value(envelope_peak(env, a, b)),
        value(envelope_peak(env, a, b)) == 0 || exists|i: int|
            a <= i < b && (magnitude((#[trigger] env[i]).0) == value(envelope_peak(env, a, b)) || magnitude(env[i].1)
                == value(envelope_peak(env, a, b))),
    decreases b - a,
{
    lemma_ends();
    if b > a {
        law_envelope_peak_is_largest(env, a, b - 1);
        let p = env[b - 1];
        lemma_absolute(p.0);
        lemma_absolute(p.1);
        let before = envelope_peak(env, a, b - 1);
        let now = envelope_peak(env, a, b);
        if value(now) == value(before) && value(before) != 0 {
            let i = choose|i: int|
                a <= i < b - 1 && (magnitude((#[trigger] env[i]).0) == value(before) || magnitude(env[i].1) == value(
                    before,
                ));
            assert(magnitude(env[i].0) == value(now) || magnitude(env[i].1) == value(now));
        }
    }
}

/// A preview reaches its target: its gain is the target over the largest value that it
/// measures, up to rounding, and one where that is next to nothing.
pub proof fn law_preview_reaches_target(env: Seq<(Bits, Bits)>, len: nat, window: Option<(usize, usize)>, target: Bits)
    requires
        is_finite(target),
        one() <= 0x10_0000 * value(target),
        value(target) <= 16 * one(),
        ({
            let (a, b) = measured_buckets(bucket_size(len, env.len()), env.len(), window);
            let peak = envelope_peak(env, a as int, least(b, env.len()) as int);
            is_finite(peak) && 0 <= value(peak) <= 0x1_0000 * one()
        }),
    ensures
        ({
            let (a, b) = measured_buckets(bucket_size(len, env.len()), env.len(), window);
            let peak = value(envelope_peak(env, a as int, least(b, env.len()) as int));
            let gain = value(preview_gain_of(env, len, window, target));
            &&& peak >= value(MILLIONTH) ==> is_near(gain, value(target) * one(), peak, 1)
            &&& peak < value(MILLIONTH) ==> gain == one()
        }),
{
    lemma_one();
    lemma_fine();
    lemma_ends();
    lemma2_to64();
    let (a, b) = measured_buckets(bucket_size(len, env.len()), env.len(), window);
    let peak = envelope_peak(env, a as int, least(b, env.len()) as int);
    let u = one();
    let p = value(peak);
    let t = value(target);
    assert(unsigned(MILLIONTH) == MILLIONTH && !negative(MILLIONTH));
    assert(last_digit(MILLIONTH) == 106 && significand(MILLIONTH) == 0x86_37bd);
    lemma_pow2_adds(23, 106);
    lemma_pow2_adds(20, 129);
    assert(0x10_0000 * value(MILLIONTH) >= u);
    lemma_large();
    if p >= value(MILLIONTH) {
        let w = pow2(276) as int;
        assert(t * u >= p * 0x80_0000 && t * u <= p * w) by (nonlinear_arith)
            requires
                u <= 0x10_0000 * t,
                t <= 16 * u,
                u <= 0x10_0000 * p,
                p <= 0x1_0000 * u,
                u >= 0x1000_0000_0000_0000,
                u * 0x1_0000_0000_0000_0000 <= w,
        ;
        lemma_near_quotient(target, peak);
    }
}

/// A preview measures the part of the envelope that the window covers: from the bucket
/// that holds the window's first frame up to the one that holds its last, up to rounding
/// at the edges of the buckets, and at least one bucket.
pub proof fn law_preview_measures_window(size: Bits, width: nat, a: usize, b: usize)
    requires
        is_finite(size),
        one() <= value(size),
        a <= b <= 0x100_0000,
    ensures
        ({
            let (first, last) = measured_buckets(size, width, Some((a, b)));
            let s = value(size);
            &&& first <= width && first < last
            &&& (first * s) * 0x100_0000 <= (a * one()) * 0x100_0001 + s
            &&& first < width ==> (a * one()) * 0xff_ffff <= ((first + 1) * s) * 0x100_0000 + s
            &&& last == first + 1 || (last * s) * 0x100_0000 <= (b * one()) * 0x100_0001 + s
            &&& last < width ==> (b * one()) * 0xff_ffff <= ((last + 1) * s) * 0x100_0000 + s
        }),
{
    lemma_one();
    lemma_small_number(a as nat);
    lemma_small_number(b as nat);
    let u = one();
    let s = value(size);
    assert(a * u <= s * 0x4000_0000 && b * u <= s * 0x4000_0000) by (nonlinear_arith)
        requires
            0 <= a <= 0x100_0000,
            0 <= b <= 0x100_0000,
            0 < u <= s,
    ;
    lemma_times(number(a as nat), size);
    lemma_times(number(b as nat), size);
    let x = at_most_index(truncated(fdiv(number(a as nat), size))) as int;
    let y = at_most_index(truncated(fdiv(number(b as nat), size))) as int;
    let (first, last) = measured_buckets(size, width, Some((a, b)));
    assert(first * s <= x * s) by (nonlinear_arith)
        requires
            first <= x,
            s > 0,
    ;
    if last != first + 1 {
        assert(last * s <= y * s) by (nonlinear_arith)
            requires
                last <= y,
                s > 0,
        ;
    }
    if last < width {
        assert((y + 1) * s <= (last + 1) * s) by (nonlinear_arith)
            requires
                y <= last,
                s > 0,
        ;
    }
}

/// The peak of a zone is the largest of its samples behind the gain, whatever their sign.
pub proof fn law_zone_peak_is_largest(s: Seq<Bits>, gain: Bits, a: int, b: int)
    requires
        forall|i: int| a <= i < b ==> !is_nan(fmul(#[trigger] s[i], gain)),
    ensures
        !is_nan(gained_peak(s, gain, a, b)),
        forall|i: int| a <= i < b ==> magnitude(fmul(#[trigger] s[i], gain)) <= value(gained_peak(s, gain, a, b)),
        value(gained_peak(s, gain, a, b)) == 0 || exists|i: int|
            a <= i < b && magnitude(fmul(#[trigger] s[i], gain)) == value(gained_peak(s, gain, a, b)),
    decreases b - a,
{
    lemma_ends();
    if b > a {
        law_zone_peak_is_largest(s, gain, a, b - 1);
        let x = fmul(s[b - 1], gain);
        lemma_absolute(x);
        let before = gained_peak(s, gain, a, b - 1);
        if !less(before, fabs(x)) && value(before) != 0 {
            let i = choose|i: int| a <= i < b - 1 && magnitude(fmul(#[trigger] s[i], gain)) == value(before);
            assert(magnitude(fmul(s[i], gain)) == value(gained_peak(s, gain, a, b)));
        }
    }
}

// ---- Scales -----------------------------------------------------------------

/// A curve is scaled in proportion: what is as high as the reference comes to lie at one,
/// what is twice as high or more at two, what is not above zero at zero, and all between
/// in proportion, up to rounding.
pub proof fn law_scaled_in_proportion(s: Seq<Bits>, reference: Bits, i: int)
    requires
        0 <= i < s.len(),
        is_finite(s[i]),
        is_finite(reference),
        one() <= 0x1000_0000 * value(reference),
        -(4 * value(reference)) <= value(s[i]) <= 4 * value(reference),
    ensures
        ({
            let v = value(scaled_by(s, reference)[i]);
            let r = value(reference);
            let off = v * r - between(value(s[i]), 0, 2 * r) * one();
            scaled_by(s, reference).len() == s.len() && 0 <= v <= 2 * one() && -(5 * (fine() * r)) <= off <= 5 * (fine() * r)
        }),
{
    lemma_one();
    lemma_fine();
    lemma_ends();
    lemma2_to64();
    let u = one();
    let g = fine();
    let least: Bits = 0x3089_705f;
    assert(unsigned(least) == least && !negative(least));
    assert(last_digit(least) == 96 && significand(least) == 0x89_705f);
    lemma_pow2_adds(23, 96);
    lemma_pow2_adds(1, 119);
    lemma_pow2_adds(29, 120);
    lemma_pow2_adds(28, 121);
    lemma_pow2_adds(1, 120);
    assert(value(least) <= value(reference));
    let r = value(reference);
    let x = value(s[i]);
    lemma_quotient_off(s[i], reference, 4);
    let top = crate::scalar::fmax(reference, least);
    assert(top == reference);
    let q = value(fdiv(s[i], reference));
    let v = value(scaled_by(s, reference)[i]);
    assert(v == between(q, 0, 2 * u));
    let e = 10 * (g * r);
    assert(e >= 0) by (nonlinear_arith)
        requires
            e == 10 * (g * r),
            g > 0,
            r > 0,
    ;
    assert(q * (2 * r) - x * (2 * u) == 2 * (q * r - x * u)) by (nonlinear_arith);
    lemma_cut(q, x, 2 * u, 2 * r, e);
    let b = between(x, 0, 2 * r);
    assert(v * (2 * r) - b * (2 * u) == 2 * (v * r - b * u)) by (nonlinear_arith);
}

/// A chord is brought to length one in proportion: each note is its part of the length,
/// up to rounding.
pub proof fn law_chord_in_proportion(v: Seq<Bits>, root: Bits, i: int)
    requires
        0 <= i < v.len(),
        is_finite(v[i]),
        is_finite(root),
        one() <= 0x1000_0000 * value(root),
        -value(root) <= value(v[i]) <= value(root),
    ensures
        ({
            let x = value(unit_chord(v, root)[i]);
            let off = x * value(root) - value(v[i]) * one();
            unit_chord(v, root).len() == v.len() && -(2 * (fine() * value(root))) <= off <= 2 * (fine() * value(root))
        }),
{
    lemma_one();
    lemma_fine();
    lemma2_to64();
    let least: Bits = 0x3089_705f;
    assert(unsigned(least) == least && !negative(least));
    assert(last_digit(least) == 96 && significand(least) == 0x89_705f);
    lemma_pow2_adds(23, 96);
    lemma_pow2_adds(1, 119);
    lemma_pow2_adds(29, 120);
    lemma_pow2_adds(28, 121);
    lemma_pow2_adds(1, 120);
    assert(value(least) <= value(root));
    assert(crate::scalar::fmax(root, least) == root);
    lemma_quotient_off(v[i], root, 1);
}

// ---- Smoothing --------------------------------------------------------------

/// The bands that are smoothed together with band `i` reach from its frequency times the
/// lower factor to its frequency times the upper one, up to rounding and one band, and
/// the band itself is among them.
pub proof fn law_smoothing_reaches_both_ways(i: nat, lo: Bits, hi: Bits, bins: nat, k: int)
    requires
        1 <= i < bins <= 0x100_0000,
        is_finite(lo) && is_finite(hi),
        one() <= 2 * value(lo),
        value(lo) <= one(),
        one() <= value(hi) <= 2 * one(),
        1 <= k < bins,
    ensures
        ({
            let (a, b) = smoothing(i, lo, hi, bins);
            let here = (k * one()) * 0x100_0000;
            &&& a <= i < b
            &&& (i * value(lo)) * 0x100_0001 <= here <= (i * value(hi)) * 0xff_ffff ==> a <= k < b
            &&& here + one() * 0x100_0000 <= (i * value(lo)) * 0xff_ffff ==> k < a
            &&& here >= (i * value(hi)) * 0x100_0001 + one() * 0x200_0000 ==> k >= b
        }),
{
    lemma_fine();
    lemma_one();
    let u = one();
    lemma_small_number(i);
    let n = i as int;
    let x = value(lo);
    let y = value(hi);
    lemma_zero(lo);
    lemma_zero(hi);
    lemma_band_edge(i, lo);
    lemma_band_edge(i, hi);
    let p = magnitude(fmul(number(i), lo)) as int;
    let q = magnitude(fmul(number(i), hi)) as int;
    vstd::arithmetic::div_mod::lemma_fundamental_div_mod(p, u);
    vstd::arithmetic::div_mod::lemma_mod_bound(p, u);
    vstd::arithmetic::div_mod::lemma_fundamental_div_mod(q + u - 1, u);
    vstd::arithmetic::div_mod::lemma_mod_bound(q + u - 1, u);
    let a0 = p / u;
    let b0 = (q + u - 1) / u;
    vstd::arithmetic::div_mod::lemma_div_pos_is_pos(p, u);
    vstd::arithmetic::div_mod::lemma_div_pos_is_pos(q + u - 1, u);
    assert(n * x <= n * u <= n * y) by (nonlinear_arith)
        requires
            n >= 1,
            x <= u <= y,
    ;
    assert(n * u <= 0x100_0000 * u && n * y <= 0x200_0000 * u) by (nonlinear_arith)
        requires
            0 <= n <= 0x100_0000,
            0 < u,
            0 < y <= 2 * u,
    ;
    // whole numbers survive rounding: the band itself is not lost
    assert(a0 <= n) by (nonlinear_arith)
        requires
            u * a0 <= p,
            p * 0x100_0000 <= (n * x) * 0x100_0001,
            n * x <= n * u,
            n <= 0x100_0000 - 1,
            n >= 1,
            u > 0,
    ;
    assert(b0 >= n) by (nonlinear_arith)
        requires
            q + u - 1 < u * b0 + u,
            (n * y) * 0xff_ffff <= q * 0x100_0000,
            n * u <= n * y,
            1 <= n <= 0x100_0000 - 1,
            u > 0,
    ;
    assert(a0 == truncated(fmul(number(i), lo)) && b0 == raised(fmul(number(i), hi))) by {
        assert(a0 <= u64::MAX);
        assert(b0 <= 0x400_0001) by (nonlinear_arith)
            requires
                u * b0 <= q + u - 1,
                q * 0x100_0000 <= (n * y) * 0x100_0001,
                n * y <= 0x200_0000 * u,
                u > 0,
        ;
    }
    let here = (k * u) * 0x100_0000;
    let l = n * x;
    let h = n * y;
    if l * 0x100_0001 <= here && here <= h * 0xff_ffff {
        assert(a0 <= k && k <= b0) by (nonlinear_arith)
            requires
                u * a0 <= p,
                p * 0x100_0000 <= l * 0x100_0001,
                q + u - 1 < u * b0 + u,
                h * 0xff_ffff <= q * 0x100_0000,
                l * 0x100_0001 <= (k * u) * 0x100_0000 <= h * 0xff_ffff,
                u > 0,
        ;
    }
    if here + u * 0x100_0000 <= l * 0xff_ffff {
        assert(k < a0) by (nonlinear_arith)
            requires
                p < u * a0 + u,
                l * 0xff_ffff <= p * 0x100_0000,
                (k * u) * 0x100_0000 + u * 0x100_0000 <= l * 0xff_ffff,
                u > 0,
        ;
    }
    if here >= h * 0x100_0001 + u * 0x200_0000 {
        assert(k >= b0 + 1) by (nonlinear_arith)
            requires
                u * b0 <= q + u - 1,
                q * 0x100_0000 <= h * 0x100_0001,
                (k * u) * 0x100_0000 >= h * 0x100_0001 + u * 0x200_0000,
                u > 0,
        ;
    }
}

proof fn lemma_band_edge(i: nat, f: Bits)
    requires
        1 <= i <= 0x100_0000,
        is_finite(f),
        one() <= 2 * value(f),
        value(f) <= 2 * one(),
    ensures
        ({
            let p = magnitude(fmul(number(i), f)) as int;
            let x = i * value(f);
            &&& is_finite(fmul(number(i), f)) && !negative(fmul(number(i), f))
            &&& p * 0x100_0000 <= x * 0x100_0001
            &&& x * 0xff_ffff <= p * 0x100_0000
        }),
{
    lemma_fine();
    lemma_one();
    lemma_small_number(i);
    lemma_zero(f);
    lemma_zero(number(i));
    let u = one();
    let n = i as int;
    let x = value(f);
    let w = pow2(276) as int;
    assert(magnitude(f) == x && !negative(f));
    assert(magnitude(number(i)) == n * u);
    assert((n * u) * x >= u * 0x80_0000 && (n * u) * x <= u * w) by (nonlinear_arith)
        requires
            1 <= n <= 0x100_0000,
            u <= 2 * x,
            x <= 2 * u,
            u >= 0x1_0000_0000_0000,
            u * 0x1000_0000 <= w,
    ;
    lemma_near_magnitude(number(i), f);
    let p = magnitude(fmul(number(i), f)) as int;
    let z = n * x;
    let t = (n * u) * x;
    assert(t == z * u) by (nonlinear_arith)
        requires
            t == (n * u) * x,
            z == n * x,
    ;
    assert(p * 0x100_0000 <= z * 0x100_0001 && z * 0xff_ffff <= p * 0x100_0000) by (nonlinear_arith)
        requires
            -(1 * t) <= (p * u - t) * 0x100_0000 <= 1 * t,
            t == z * u,
            u > 0,
    ;
}

} // verus!
