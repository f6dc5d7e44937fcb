//! What holds of the clipper curves as a whole: no curve leaves the ceiling, and
//! every curve treats both signs alike.

use vstd::prelude::*;
use vstd::arithmetic::power2::*;
use crate::arith::{lemma_ratio_pattern, lemma_sum, lemma_infinity, abs};
use crate::dsp::{ClipperType, curve_at, in_ceilings, logistic, shaped, law_bounded_by_ceiling, lemma_absolute, lemma_rails};
use crate::dsp::{ONE_AND_HALF, THREE, EIGHT, TEN, FIFTEEN, QUARTER_TURN};
use crate::rounding::{nearest, nearest_ratio, lemma_ratio_error, lemma_ratio_between};
use crate::scalar::{fadd, fsub, fmul, fdiv, fmax, fabs, negated, is_infinite, is_zero, lemma_negated};
use crate::single::{Bits, INFINITY, ONE, MINUS_ONE, HALF, MILLIONTH};
use crate::single::{is_nan, is_finite, negative, unsigned, magnitude, value, significand, last_digit, at_most, lemma_magnitude_order, lemma_zero};

verus! {

// ---- Rounding errors --------------------------------------------------------

/// How far a number near one is off after rounding, in the units of magnitudes.
pub open spec fn grain() -> int {
    pow2(125) as int
}

/// One, in the units of magnitudes.
pub open spec fn unit() -> int {
    pow2(149) as int
}

pub proof fn lemma_units()
    ensures
        grain() >= 1,
        unit() == grain() * 0x100_0000,
        unit() > 0,
        unit() * 0x100_0000 < pow2(277),
{
    lemma2_to64();
    lemma_pow2_pos(125);
    lemma_pow2_adds(125, 24);
    lemma_pow2_adds(149, 24);
    lemma_pow2_strictly_increases(173, 277);
}

/// A product is the exact one, up to a rounding.
pub proof fn lemma_product(a: Bits, b: Bits, m: int)
    requires
        is_finite(a),
        is_finite(b),
        1 <= m <= 1024,
        -(m * (unit() * unit())) <= value(a) * value(b) <= m * (unit() * unit()),
    ensures
        is_finite(fmul(a, b)),
        -((m + 1) * (grain() * unit())) <= value(fmul(a, b)) * unit() - value(a) * value(b) <= (m + 1)
            * (grain() * unit()),
{
    lemma_units();
    lemma2_to64();
    let u = unit();
    let g = grain();
    let num = magnitude(a) * magnitude(b);
    let minus = negative(a) != negative(b);
    let r = nearest_ratio(num, u as nat, 24);
    lemma_ratio_error(num, u as nat, 24);
    lemma_ratio_pattern(num, u as nat, minus);
    assert(num == (if minus { -(value(a) * value(b)) } else { value(a) * value(b) })) by (nonlinear_arith)
        requires
            num == magnitude(a) * magnitude(b),
            minus == (negative(a) != negative(b)),
            value(a) == (if negative(a) { -(magnitude(a) as int) } else { magnitude(a) as int }),
            value(b) == (if negative(b) { -(magnitude(b) as int) } else { magnitude(b) as int }),
    ;
    let w = g * u;
    assert(m * (u * u) == (m * w) * 0x100_0000) by (nonlinear_arith)
        requires
            u == g * 0x100_0000,
            w == g * u,
    ;
    assert((m + 1) * w == m * w + w) by (nonlinear_arith);
    assert(u <= w) by (nonlinear_arith)
        requires
            g >= 1,
            u > 0,
            w == g * u,
    ;
    assert(r * u <= num + m * w + w);
    assert(num <= r * u + m * w + w);
    assert(r < pow2(277)) by {
        assert(w * 0x100_0000 == u * u) by (nonlinear_arith)
            requires
                u == g * 0x100_0000,
                w == g * u,
        ;
        assert(m * (u * u) <= 1024 * (u * u)) by (nonlinear_arith)
            requires
                m <= 1024,
        ;
        assert(r * u <= 2050 * (u * u)) by {
            assert(m * w <= 1024 * w) by (nonlinear_arith)
                requires
                    m <= 1024,
                    w >= 0,
            ;
        }
        assert(r <= 2050 * u) by (nonlinear_arith)
            requires
                r * u <= 2050 * (u * u),
                u > 0,
        ;
    }
    let p = fmul(a, b);
    assert(value(p) * u == (if minus { -(r * u) } else { r * u })) by (nonlinear_arith)
        requires
            value(p) == (if minus { -(r as int) } else { r as int }),
    ;
}

/// A sum is the exact one, up to a rounding.
pub proof fn lemma_sum_error(a: Bits, b: Bits, m: int)
    requires
        is_finite(a),
        is_finite(b),
        1 <= m <= 1024,
        -(m * unit()) <= value(a) + value(b) <= m * unit(),
    ensures
        is_finite(fadd(a, b)),
        -((m + 1) * grain()) <= value(fadd(a, b)) - (value(a) + value(b)) <= (m + 1) * grain(),
{
    lemma_units();
    lemma2_to64();
    let u = unit();
    let g = grain();
    let x = value(a) + value(b);
    lemma_sum(a, b);
    lemma_ratio_error(abs(x), 1, 24);
    let r = nearest(abs(x), 24);
    assert(r * 1 * 0x100_0000 == r * 0x100_0000);
    assert(m * u == (m * g) * 0x100_0000) by (nonlinear_arith)
        requires
            u == g * 0x100_0000,
    ;
    assert((m + 1) * g == m * g + g) by (nonlinear_arith);
    assert(m * g <= 1024 * g && m * u <= 1024 * u) by (nonlinear_arith)
        requires
            m <= 1024,
            g >= 1,
            u > 0,
    ;
    assert(r < pow2(277));
}

/// The difference too.
proof fn lemma_difference_error(a: Bits, b: Bits, m: int)
    requires
        is_finite(a),
        is_finite(b),
        1 <= m <= 32,
        -(m * unit()) <= value(a) - value(b) <= m * unit(),
    ensures
        is_finite(fsub(a, b)),
        -((m + 1) * grain()) <= value(fsub(a, b)) - (value(a) - value(b)) <= (m + 1) * grain(),
{
    lemma_negated(b);
    lemma_sum_error(a, negated(b), m);
}

// ---- Up to rounding ---------------------------------------------------------

/// One more factor: where `x` stands for `t / s` up to `k` grains, and `y` for
/// `x * v / u` up to `j`, `y` stands for `t * v / (s * u)`.
proof fn lemma_factor(x: int, y: int, v: int, s: int, t: int, k: int, j: int)
    requires
        s > 0,
        k >= 0,
        -unit() <= v <= unit(),
        -(k * (grain() * s)) <= x * s - t <= k * (grain() * s),
        -(j * (grain() * unit())) <= y * unit() - x * v <= j * (grain() * unit()),
    ensures
        -((k + j) * (grain() * (s * unit()))) <= y * (s * unit()) - t * v <= (k + j) * (grain() * (s * unit())),
{
    lemma_units();
    let u = unit();
    let g = grain();
    let d = x * s - t;
    let e = y * u - x * v;
    assert(y * (s * u) - t * v == d * v + e * s) by (nonlinear_arith)
        requires
            d == x * s - t,
            e == y * u - x * v,
    ;
    let b = k * (g * s);
    assert(b >= 0) by (nonlinear_arith)
        requires
            k >= 0,
            g >= 1,
            s > 0,
            b == k * (g * s),
    ;
    assert(-(b * u) <= d * v <= b * u) by (nonlinear_arith)
        requires
            -b <= d <= b,
            -u <= v <= u,
            b >= 0,
            u > 0,
    ;
    let c = j * (g * u);
    assert(-(c * s) <= e * s <= c * s) by (nonlinear_arith)
        requires
            -c <= e <= c,
            s > 0,
    ;
    let z = g * (s * u);
    assert(b * u == k * z) by (nonlinear_arith)
        requires
            b == k * (g * s),
            z == g * (s * u),
    ;
    assert(c * s == j * z) by (nonlinear_arith)
        requires
            c == j * (g * u),
            z == g * (s * u),
    ;
    assert((k + j) * z == k * z + j * z) by (nonlinear_arith);
}

/// What multiples bound bounds.
pub proof fn lemma_divided(x: int, b: int, c: int)
    requires
        c > 0,
        -(b * c) <= x * c <= b * c,
    ensures
        -b <= x <= b,
{
    assert(-b <= x <= b) by (nonlinear_arith)
        requires
            c > 0,
            -(b * c) <= x * c <= b * c,
    ;
}

/// Where `x` stands for `t / s` up to `k` grains and `t` is within `s` units, `x`
/// is within a unit and `k` grains.
proof fn lemma_within(x: int, s: int, t: int, k: int)
    requires
        s > 0,
        -(s * unit()) <= t <= s * unit(),
        -(k * (grain() * s)) <= x * s - t <= k * (grain() * s),
    ensures
        -(unit() + k * grain()) <= x <= unit() + k * grain(),
{
    let b = unit() + k * grain();
    assert(b * s == s * unit() + k * (grain() * s)) by (nonlinear_arith)
        requires
            b == unit() + k * grain(),
    ;
    lemma_divided(x, b, s);
}

/// A product with `c` units, up to `k` grains.
proof fn lemma_scaled(x: int, y: int, c: int, k: int)
    requires
        -(k * (grain() * unit())) <= y * unit() - (c * unit()) * x <= k * (grain() * unit()),
    ensures
        -(k * grain()) <= y - c * x <= k * grain(),
{
    lemma_units();
    let u = unit();
    assert(y * u - (c * u) * x == (y - c * x) * u) by (nonlinear_arith);
    assert(k * (grain() * u) == (k * grain()) * u) by (nonlinear_arith);
    lemma_divided(y - c * x, k * grain(), u);
}

/// A product of numbers within `m` units and within one.
proof fn lemma_small(x: int, v: int, m: int)
    requires
        -(m * unit()) <= x <= m * unit(),
        -unit() <= v <= unit(),
    ensures
        -(m * (unit() * unit())) <= x * v <= m * (unit() * unit()),
{
    lemma_units();
    let u = unit();
    let b = m * u;
    assert(-(b * u) <= x * v <= b * u) by (nonlinear_arith)
        requires
            -b <= x <= b,
            -u <= v <= u,
            u > 0,
    ;
    assert(b * u == m * (u * u)) by (nonlinear_arith)
        requires
            b == m * u,
    ;
}

proof fn lemma_constants()
    ensures
        is_finite(FIFTEEN) && value(FIFTEEN) == 15 * unit(),
        is_finite(TEN) && value(TEN) == 10 * unit(),
        is_finite(THREE) && value(THREE) == 3 * unit(),
        is_finite(EIGHT) && value(EIGHT) == 8 * unit(),
        is_finite(ONE_AND_HALF) && 2 * value(ONE_AND_HALF) == 3 * unit(),
        is_finite(HALF) && 2 * value(HALF) == unit(),
{
    lemma2_to64();
    lemma_pow2_adds(23, 126);
    lemma_pow2_adds(20, 129);
    lemma_pow2_adds(22, 127);
    lemma_pow2_adds(24, 125);
    assert(significand(FIFTEEN) == 0xf0_0000 && last_digit(FIFTEEN) == 129);
    assert(significand(TEN) == 0xa0_0000 && last_digit(TEN) == 129);
    assert(significand(EIGHT) == 0x80_0000 && last_digit(EIGHT) == 129);
    assert(significand(THREE) == 0xc0_0000 && last_digit(THREE) == 127);
    assert(significand(ONE_AND_HALF) == 0xc0_0000 && last_digit(ONE_AND_HALF) == 126);
    assert(significand(HALF) == 0x80_0000 && last_digit(HALF) == 125);
    let a = pow2(129);
    assert(0xf0_0000 * a == 15 * (0x10_0000 * a));
    let b = pow2(127);
    assert(0xc0_0000 * b == 3 * (0x40_0000 * b));
    let c = pow2(126);
    assert(2 * (0xc0_0000 * c) == 3 * (0x80_0000 * c));
    let d = pow2(125);
    assert(2 * (0x80_0000 * d) == 0x100_0000 * d);
}

/// `|3 v - v^3| <= 2` for `|v| <= 1`, in units.
proof fn lemma_cubic(v: int, u: int)
    requires
        -u <= v <= u,
    ensures
        -(2 * (u * (u * u))) <= 3 * (v * (u * u)) - (v * v) * v <= 2 * (u * (u * u)),
{
    assert((u - v) * (u - v) * (2 * u + v) >= 0) by (nonlinear_arith)
        requires
            -u <= v <= u,
    ;
    assert((u + v) * (u + v) * (2 * u - v) >= 0) by (nonlinear_arith)
        requires
            -u <= v <= u,
    ;
    assert((u - v) * (u - v) * (2 * u + v) == 2 * (u * (u * u)) - 3 * (v * (u * u)) + (v * v) * v)
        by (nonlinear_arith);
    assert((u + v) * (u + v) * (2 * u - v) == 2 * (u * (u * u)) + 3 * (v * (u * u)) - (v * v) * v)
        by (nonlinear_arith);
}

/// The cubic at a number within one is within one, but for a few roundings.
proof fn lemma_cubic_rounded(n: Bits)
    requires
        is_finite(n),
        -unit() <= value(n) <= unit(),
    ensures
        ({
            let y = fsub(fmul(ONE_AND_HALF, n), fmul(fmul(fmul(HALF, n), n), n));
            let v = value(n);
            let uu = unit() * unit();
            let exact = 3 * (v * uu) - (v * v) * v;
            &&& is_finite(y)
            &&& -(unit() + 12 * grain()) <= value(y) <= unit() + 12 * grain()
            &&& -(24 * (grain() * uu)) <= (2 * value(y)) * uu - exact <= 24 * (grain() * uu)
        }),
{
    lemma_units();
    lemma_constants();
    let u = unit();
    let g = grain();
    let v = value(n);
    let uu = u * u;
    let w = g * u;
    // three halves of it
    let top = value(ONE_AND_HALF);
    let a = value(fmul(ONE_AND_HALF, n));
    lemma_small(top, v, 2);
    lemma_product(ONE_AND_HALF, n, 2);
    assert((2 * top) * v == 2 * (top * v)) by (nonlinear_arith);
    assert((2 * a) * u == 2 * (a * u)) by (nonlinear_arith);
    lemma_scaled(v, 2 * a, 3, 6);
    // half of it
    let half = value(HALF);
    let h = value(fmul(HALF, n));
    lemma_small(half, v, 1);
    lemma_product(HALF, n, 1);
    assert((2 * half) * v == 2 * (half * v)) by (nonlinear_arith);
    assert((2 * h) * u == 2 * (h * u)) by (nonlinear_arith);
    assert((1 * u) * v == u * v) by (nonlinear_arith);
    lemma_scaled(v, 2 * h, 1, 4);
    // its square, and its cube, halved
    lemma_small(h, v, 1);
    lemma_product(fmul(HALF, n), n, 1);
    let c = value(fmul(fmul(HALF, n), n));
    assert((2 * h) * v == 2 * (h * v)) by (nonlinear_arith);
    assert((2 * c) * u == 2 * (c * u)) by (nonlinear_arith);
    lemma_factor(2 * h, 2 * c, v, 1, v, 4, 4);
    assert(1 * u == u);
    assert(-(u * u) <= v * v <= u * u) by {
        lemma_small(v, v, 1);
    }
    lemma_within(2 * c, u, v * v, 8);
    lemma_small(c, v, 1);
    lemma_product(fmul(fmul(HALF, n), n), n, 1);
    let d = value(fmul(fmul(fmul(HALF, n), n), n));
    assert((2 * c) * v == 2 * (c * v)) by (nonlinear_arith);
    assert((2 * d) * u == 2 * (d * u)) by (nonlinear_arith);
    lemma_factor(2 * c, 2 * d, v, u, v * v, 8, 4);
    // the difference
    lemma_cubic(v, u);
    let x = 2 * (a - d);
    assert(uu > 0) by (nonlinear_arith)
        requires
            u > 0,
            uu == u * u,
    ;
    assert(-((2 * u + 18 * g) * uu) <= x * uu <= (2 * u + 18 * g) * uu) by {
        assert((2 * u + 18 * g) * uu == 2 * (u * uu) + 18 * (g * uu)) by (nonlinear_arith);
        assert(x * uu == (2 * a) * uu - (2 * d) * uu) by (nonlinear_arith)
            requires
                x == 2 * (a - d),
        ;
        assert((2 * a) * uu - (3 * v) * uu == (2 * a - 3 * v) * uu) by (nonlinear_arith);
        assert(-((6 * g) * uu) <= (2 * a - 3 * v) * uu <= (6 * g) * uu) by (nonlinear_arith)
            requires
                -(6 * g) <= 2 * a - 3 * v <= 6 * g,
                uu > 0,
        ;
        assert((6 * g) * uu == 6 * (g * uu)) by (nonlinear_arith);
        assert((3 * v) * uu == 3 * (v * uu)) by (nonlinear_arith);
    }
    lemma_divided(x, 2 * u + 18 * g, uu);
    lemma_difference_error(fmul(ONE_AND_HALF, n), fmul(fmul(fmul(HALF, n), n), n), 2);
    let y = value(fsub(fmul(ONE_AND_HALF, n), fmul(fmul(fmul(HALF, n), n), n)));
    assert(-(18 * (g * uu)) <= x * uu - (3 * (v * uu) - (v * v) * v) <= 18 * (g * uu)) by {
        assert(x * uu == (2 * a) * uu - (2 * d) * uu) by (nonlinear_arith)
            requires
                x == 2 * (a - d),
        ;
        assert((2 * a) * uu - (3 * v) * uu == (2 * a - 3 * v) * uu) by (nonlinear_arith);
        assert(-((6 * g) * uu) <= (2 * a - 3 * v) * uu <= (6 * g) * uu) by (nonlinear_arith)
            requires
                -(6 * g) <= 2 * a - 3 * v <= 6 * g,
                uu > 0,
        ;
        assert((6 * g) * uu == 6 * (g * uu)) by (nonlinear_arith);
        assert((3 * v) * uu == 3 * (v * uu)) by (nonlinear_arith);
    }
    let z = 2 * y - x;
    assert(-(6 * (g * uu)) <= z * uu <= 6 * (g * uu)) by (nonlinear_arith)
        requires
            -(6 * g) <= z <= 6 * g,
            uu > 0,
    ;
    assert((2 * y) * uu == x * uu + z * uu) by (nonlinear_arith)
        requires
            z == 2 * y - x,
    ;
}

/// `|15 v - 10 v^3 + 3 v^5| <= 8` for `|v| <= 1`, in units.
proof fn lemma_quintic(v: int, u: int)
    requires
        -u <= v <= u,
        u > 0,
    ensures
        ({
            let u4 = ((u * u) * u) * u;
            let v3 = (v * v) * v;
            let v5 = (v3 * v) * v;
            let t = 15 * (v * u4) - 10 * (v3 * (u * u)) + 3 * v5;
            -(8 * (u * u4)) <= t <= 8 * (u * u4)
        }),
{
    lemma_quintic_side(v, u);
    lemma_quintic_side(-v, u);
    let u4 = ((u * u) * u) * u;
    let v3 = (v * v) * v;
    let w3 = ((-v) * (-v)) * (-v);
    assert(w3 == -v3) by (nonlinear_arith)
        requires
            v3 == (v * v) * v,
            w3 == ((-v) * (-v)) * (-v),
    ;
    assert((w3 * (-v)) * (-v) == -((v3 * v) * v)) by (nonlinear_arith)
        requires
            w3 == -v3,
    ;
    assert((-v) * u4 == -(v * u4)) by (nonlinear_arith);
    assert(w3 * (u * u) == -(v3 * (u * u))) by (nonlinear_arith)
        requires
            w3 == -v3,
    ;
}

/// One side of it: the rest is `(1 - v)^3 (8 + 9 v + 3 v^2)`.
proof fn lemma_quintic_side(v: int, u: int)
    requires
        -u <= v <= u,
        u > 0,
    ensures
        ({
            let u4 = ((u * u) * u) * u;
            let v3 = (v * v) * v;
            let v5 = (v3 * v) * v;
            15 * (v * u4) - 10 * (v3 * (u * u)) + 3 * v5 <= 8 * (u * u4)
        }),
{
    let d = u - v;
    let q = 8 * (u * u) + 9 * (u * v) + 3 * (v * v);
    assert(4 * q == 3 * ((2 * v + 3 * u) * (2 * v + 3 * u)) + 5 * (u * u)) by (nonlinear_arith)
        requires
            q == 8 * (u * u) + 9 * (u * v) + 3 * (v * v),
    ;
    assert(q >= 0) by (nonlinear_arith)
        requires
            4 * q == 3 * ((2 * v + 3 * u) * (2 * v + 3 * u)) + 5 * (u * u),
    ;
    let d2 = d * d;
    assert(d2 >= 0) by (nonlinear_arith)
        requires
            d2 == d * d,
    ;
    let d3 = d2 * d;
    assert(d3 >= 0) by (nonlinear_arith)
        requires
            d2 >= 0,
            d >= 0,
            d3 == d2 * d,
    ;
    assert(d3 * q >= 0) by (nonlinear_arith)
        requires
            d3 >= 0,
            q >= 0,
    ;
    let u2 = u * u;
    let v2 = v * v;
    let uv = u * v;
    assert(d2 == u2 - 2 * uv + v2) by (nonlinear_arith)
        requires
            d == u - v,
            d2 == d * d,
            u2 == u * u,
            v2 == v * v,
            uv == u * v,
    ;
    // (d2 * q) is a quartic, and d times it the quintic
    let u4 = (u2 * u) * u;
    let v3 = v2 * v;
    let e = d2 * q;
    assert(e == 8 * (u2 * u2) - 7 * (u2 * uv) - 7 * (u2 * v2) + 3 * (uv * v2) + 3 * (v2 * v2)) by {
        assert(u2 * v2 == uv * uv) by (nonlinear_arith)
            requires
                u2 == u * u,
                v2 == v * v,
                uv == u * v,
        ;
        assert(e == 8 * (u2 * u2) + 9 * (u2 * uv) + 3 * (u2 * v2) - 16 * (uv * u2) - 18 * (uv * uv) - 6 * (uv
            * v2) + 8 * (v2 * u2) + 9 * (v2 * uv) + 3 * (v2 * v2)) by (nonlinear_arith)
            requires
                e == d2 * q,
                d2 == u2 - 2 * uv + v2,
                q == 8 * u2 + 9 * uv + 3 * v2,
        ;
        assert(uv * u2 == u2 * uv && v2 * u2 == u2 * v2 && v2 * uv == uv * v2) by (nonlinear_arith);
    }
    assert(d3 * q == e * d) by (nonlinear_arith)
        requires
            d3 == d2 * d,
            e == d2 * q,
    ;
    lemma_quintic_terms(u, v, u2, v2, uv);
    assert(e * d == e * u - e * v) by (nonlinear_arith)
        requires
            d == u - v,
    ;
    let a = u2 * u2;
    let b = u2 * uv;
    let c = u2 * v2;
    let f = uv * v2;
    let h = v2 * v2;
    assert(e * u == 8 * (a * u) - 7 * (b * u) - 7 * (c * u) + 3 * (f * u) + 3 * (h * u)) by (nonlinear_arith)
        requires
            e == 8 * a - 7 * b - 7 * c + 3 * f + 3 * h,
    ;
    assert(e * v == 8 * (a * v) - 7 * (b * v) - 7 * (c * v) + 3 * (f * v) + 3 * (h * v)) by (nonlinear_arith)
        requires
            e == 8 * a - 7 * b - 7 * c + 3 * f + 3 * h,
    ;
    assert(a == u4) by (nonlinear_arith)
        requires
            a == u2 * u2,
            u4 == (u2 * u) * u,
            u2 == u * u,
    ;
    assert(a * u == u * u4 && a * v == v * u4) by (nonlinear_arith)
        requires
            a == u4,
    ;
    assert(h * v == (v3 * v) * v) by (nonlinear_arith)
        requires
            h == v2 * v2,
            v3 == v2 * v,
            v2 == v * v,
    ;
    assert(c * v == v3 * u2) by (nonlinear_arith)
        requires
            c == u2 * v2,
            v3 == v2 * v,
    ;
}

/// Monomials of degree five that are the same.
proof fn lemma_quintic_terms(u: int, v: int, u2: int, v2: int, uv: int)
    requires
        u2 == u * u,
        v2 == v * v,
        uv == u * v,
    ensures
        (u2 * uv) * u == (u2 * u2) * v,
        (u2 * v2) * u == (u2 * uv) * v,
        (uv * v2) * u == (u2 * v2) * v,
        (v2 * v2) * u == (uv * v2) * v,
{
    assert(uv * u == u2 * v) by (nonlinear_arith)
        requires
            u2 == u * u,
            uv == u * v,
    ;
    assert(v2 * u == uv * v) by (nonlinear_arith)
        requires
            v2 == v * v,
            uv == u * v,
    ;
    assert((u2 * uv) * u == u2 * (uv * u)) by (nonlinear_arith);
    assert((u2 * u2) * v == u2 * (u2 * v)) by (nonlinear_arith);
    assert((u2 * v2) * u == u2 * (v2 * u)) by (nonlinear_arith);
    assert((u2 * uv) * v == u2 * (uv * v)) by (nonlinear_arith);
    assert((uv * v2) * u == (uv * u) * v2) by (nonlinear_arith);
    assert((u2 * v2) * v == (u2 * v) * v2) by (nonlinear_arith);
    assert((v2 * v2) * u == v2 * (v2 * u)) by (nonlinear_arith);
    assert((uv * v2) * v == v2 * (uv * v)) by (nonlinear_arith);
}

/// The powers of a number within one, as they are computed.
proof fn lemma_powers(n: Bits)
    requires
        is_finite(n),
        -unit() <= value(n) <= unit(),
    ensures
        ({
            let u = unit();
            let g = grain();
            let v = value(n);
            let v3 = (v * v) * v;
            let v5 = (v3 * v) * v;
            let u4 = ((u * u) * u) * u;
            let n3 = fmul(fmul(n, n), n);
            let n5 = fmul(fmul(n3, n), n);
            &&& is_finite(n3)
            &&& is_finite(n5)
            &&& -(5 * (g * (u * u))) <= value(n3) * (u * u) - v3 <= 5 * (g * (u * u))
            &&& -(11 * (g * u4)) <= value(n5) * u4 - v5 <= 11 * (g * u4)
            &&& -(u + 5 * g) <= value(n3) <= u + 5 * g
            &&& -(u + 11 * g) <= value(n5) <= u + 11 * g
        }),
{
    lemma_units();
    let u = unit();
    let g = grain();
    let v = value(n);
    let n2 = fmul(n, n);
    let n3 = fmul(n2, n);
    let n4 = fmul(n3, n);
    let n5 = fmul(n4, n);
    let u2 = u * u;
    let u3 = u2 * u;
    let u4 = u3 * u;
    let v2 = v * v;
    let v3 = v2 * v;
    let v4 = v3 * v;
    assert(u2 > 0 && u3 > 0) by (nonlinear_arith)
        requires
            u > 0,
            u2 == u * u,
            u3 == u2 * u,
    ;
    lemma_small(v, v, 1);
    lemma_product(n, n, 1);
    lemma_within(value(n2), u, v2, 2);
    lemma_small(value(n2), v, 2);
    lemma_product(n2, n, 2);
    lemma_factor(value(n2), value(n3), v, u, v2, 2, 3);
    lemma_grown(v2, v, u);
    lemma_within(value(n3), u2, v3, 5);
    lemma_small(value(n3), v, 2);
    lemma_product(n3, n, 2);
    lemma_factor(value(n3), value(n4), v, u2, v3, 5, 3);
    lemma_grown(v3, v, u2);
    lemma_within(value(n4), u3, v4, 8);
    lemma_small(value(n4), v, 2);
    lemma_product(n4, n, 2);
    lemma_factor(value(n4), value(n5), v, u3, v4, 8, 3);
    lemma_grown(v4, v, u3);
    assert(u4 > 0) by (nonlinear_arith)
        requires
            u > 0,
            u3 > 0,
            u4 == u3 * u,
    ;
    lemma_within(value(n5), u4, v4 * v, 11);
}

/// A factor within one unit keeps what is within `s` units within `s` units.
proof fn lemma_grown(t: int, v: int, s: int)
    requires
        s > 0,
        -(s * unit()) <= t <= s * unit(),
        -unit() <= v <= unit(),
    ensures
        -((s * unit()) * unit()) <= t * v <= (s * unit()) * unit(),
{
    lemma_units();
    let b = s * unit();
    assert(-(b * unit()) <= t * v <= b * unit()) by (nonlinear_arith)
        requires
            -b <= t <= b,
            -unit() <= v <= unit(),
            unit() > 0,
    ;
}

/// The quintic at a number within one is within one, but for a few roundings.
proof fn lemma_quintic_rounded(n: Bits)
    requires
        is_finite(n),
        -unit() <= value(n) <= unit(),
    ensures
        ({
            let n3 = fmul(fmul(n, n), n);
            let n5 = fmul(fmul(n3, n), n);
            let y = fdiv(fadd(fsub(fmul(FIFTEEN, n), fmul(TEN, n3)), fmul(THREE, n5)), EIGHT);
            let u = unit();
            let v = value(n);
            let v3 = (v * v) * v;
            let v5 = (v3 * v) * v;
            let u4 = ((u * u) * u) * u;
            let exact = 15 * (v * u4) - 10 * (v3 * (u * u)) + 3 * v5;
            &&& is_finite(y)
            &&& magnitude(y) <= unit() + 25 * grain()
            &&& -(200 * (grain() * u4)) <= (8 * value(y)) * u4 - exact <= 200 * (grain() * u4)
        }),
{
    lemma_units();
    lemma_constants();
    lemma_powers(n);
    let u = unit();
    let g = grain();
    let v = value(n);
    let n3 = fmul(fmul(n, n), n);
    let n5 = fmul(fmul(n3, n), n);
    let c = value(n3);
    let f = value(n5);
    // fifteen times, ten times and three times
    assert((15 * u) * v == 15 * (u * v)) by (nonlinear_arith);
    lemma_small(15 * v, u, 15);
    assert((15 * v) * u == (15 * u) * v) by (nonlinear_arith);
    lemma_product(FIFTEEN, n, 15);
    let p = value(fmul(FIFTEEN, n));
    lemma_scaled(v, p, 15, 16);
    lemma_small(10 * c, u, 15);
    assert((10 * c) * u == (10 * u) * c) by (nonlinear_arith);
    lemma_product(TEN, n3, 15);
    let q = value(fmul(TEN, n3));
    lemma_scaled(c, q, 10, 16);
    lemma_small(3 * f, u, 4);
    assert((3 * f) * u == (3 * u) * f) by (nonlinear_arith);
    lemma_product(THREE, n5, 4);
    let r = value(fmul(THREE, n5));
    lemma_scaled(f, r, 3, 5);
    // the two sums
    lemma_difference_error(fmul(FIFTEEN, n), fmul(TEN, n3), 26);
    let inner = fsub(fmul(FIFTEEN, n), fmul(TEN, n3));
    lemma_sum_error(inner, fmul(THREE, n5), 31);
    let whole = fadd(inner, fmul(THREE, n5));
    let x = value(whole);
    let t = 15 * v - 10 * c + 3 * f;
    assert(-(96 * g) <= x - t <= 96 * g);
    // the exact polynomial
    lemma_quintic(v, u);
    let uu = u * u;
    let u4 = (uu * u) * u;
    let v3 = (v * v) * v;
    let v5 = (v3 * v) * v;
    assert(u4 > 0) by (nonlinear_arith)
        requires
            u > 0,
            uu == u * u,
            u4 == (uu * u) * u,
    ;
    let exact = 15 * (v * u4) - 10 * (v3 * uu) + 3 * v5;
    assert(-(83 * (g * u4)) <= t * u4 - exact <= 83 * (g * u4)) by {
        assert(t * u4 == 15 * (v * u4) - 10 * (c * u4) + 3 * (f * u4)) by (nonlinear_arith)
            requires
                t == 15 * v - 10 * c + 3 * f,
        ;
        assert(u4 == uu * uu) by (nonlinear_arith)
            requires
                uu == u * u,
                u4 == (uu * u) * u,
        ;
        let e = c * uu - v3;
        assert(c * u4 - v3 * uu == e * uu) by (nonlinear_arith)
            requires
                u4 == uu * uu,
                e == c * uu - v3,
        ;
        let b = 5 * (g * uu);
        assert(-(b * uu) <= e * uu <= b * uu) by (nonlinear_arith)
            requires
                -b <= e <= b,
                uu == u * u,
        ;
        assert(b * uu == 5 * (g * u4)) by (nonlinear_arith)
            requires
                b == 5 * (g * uu),
                u4 == uu * uu,
        ;
    }
    assert(-((8 * u + 83 * g) * u4) <= t * u4 <= (8 * u + 83 * g) * u4) by {
        assert((8 * u + 83 * g) * u4 == 8 * (u * u4) + 83 * (g * u4)) by (nonlinear_arith);
    }
    lemma_divided(t, 8 * u + 83 * g, u4);
    // an eighth of it
    lemma_eighth(whole);
    let y = value(fdiv(whole, EIGHT));
    let z = 8 * y - t;
    assert(-(117 * g) <= z <= 117 * g);
    assert(-(117 * (g * u4)) <= z * u4 <= 117 * (g * u4)) by (nonlinear_arith)
        requires
            -(117 * g) <= z <= 117 * g,
            u4 > 0,
    ;
    assert((8 * y) * u4 == t * u4 + z * u4) by (nonlinear_arith)
        requires
            z == 8 * y - t,
    ;
}

/// An eighth of a number within `8 u + 179 g` is within `u + 25 g`.
proof fn lemma_eighth(w: Bits)
    requires
        is_finite(w),
        -(8 * unit() + 179 * grain()) <= value(w) <= 8 * unit() + 179 * grain(),
    ensures
        is_finite(fdiv(w, EIGHT)),
        magnitude(fdiv(w, EIGHT)) <= unit() + 25 * grain(),
        -(17 * grain()) <= 8 * value(fdiv(w, EIGHT)) - value(w) <= 17 * grain(),
{
    lemma_units();
    lemma_constants();
    lemma2_to64();
    let u = unit();
    let g = grain();
    let m = magnitude(w);
    let num = m * u as nat;
    let den = (8 * u) as nat;
    lemma_ratio_error(num, den, 24);
    lemma_ratio_pattern(num, den, negative(w) != negative(EIGHT));
    let r = nearest_ratio(num, den, 24);
    assert(r * (8 * u) == (8 * r) * u) by (nonlinear_arith);
    assert(m * u <= 9 * (u * u)) by (nonlinear_arith)
        requires
            m <= 9 * u,
            u > 0,
    ;
    assert(u * u == (g * u) * 0x100_0000) by (nonlinear_arith)
        requires
            u == g * 0x100_0000,
    ;
    assert((8 * r) * u <= m * u + 9 * (g * u) + 8 * u);
    assert((8 * r) * u <= (m + 17 * g) * u) by (nonlinear_arith)
        requires
            (8 * r) * u <= m * u + 9 * (g * u) + 8 * u,
            g >= 1,
            u > 0,
    ;
    assert(8 * r <= m + 17 * g) by (nonlinear_arith)
        requires
            (8 * r) * u <= (m + 17 * g) * u,
            u > 0,
    ;
    assert(m * u <= (8 * r) * u + 9 * (g * u) + 8 * u);
    assert(m * u <= (8 * r + 17 * g) * u) by (nonlinear_arith)
        requires
            m * u <= (8 * r) * u + 9 * (g * u) + 8 * u,
            g >= 1,
            u > 0,
    ;
    assert(m <= 8 * r + 17 * g) by (nonlinear_arith)
        requires
            m * u <= (8 * r + 17 * g) * u,
            u > 0,
    ;
    assert(!is_zero(EIGHT) && !is_infinite(EIGHT));
}

// ---- The ceiling ------------------------------------------------------------

/// What is within one but for a few roundings stays, times the ceiling, within the
/// ceiling but for a 2^18-th of it.
proof fn lemma_near_ceiling(y: Bits, ceiling: Bits)
    requires
        is_finite(y),
        is_finite(ceiling),
        magnitude(y) <= unit() + 25 * grain(),
        magnitude(ceiling) >= 0x100_0000,
    ensures
        !is_nan(fmul(y, ceiling)),
        magnitude(fmul(y, ceiling)) * 0x4_0000 <= magnitude(ceiling) * 0x4_0001,
{
    lemma_units();
    lemma2_to64();
    let u = unit();
    let g = grain();
    let c = magnitude(ceiling) as int;
    let num = magnitude(y) * magnitude(ceiling);
    lemma_ratio_error(num, u as nat, 24);
    lemma_ratio_pattern(num, u as nat, negative(y) != negative(ceiling));
    let r = nearest_ratio(num, u as nat, 24);
    let gc = g * c;
    assert(num <= 0x100_0000 * gc + 25 * gc) by (nonlinear_arith)
        requires
            num == magnitude(y) * magnitude(ceiling),
            magnitude(y) <= g * 0x100_0000 + 25 * g,
            c == magnitude(ceiling),
            gc == g * c,
    ;
    assert(gc >= 0x100_0000 * g) by (nonlinear_arith)
        requires
            c >= 0x100_0000,
            g >= 1,
            gc == g * c,
    ;
    assert(u * 0x100_0000 <= 0x100_0000 * gc);
    assert(r * u <= num + 3 * gc);
    assert(r * u == (r * 0x100_0000) * g) by (nonlinear_arith)
        requires
            u == g * 0x100_0000,
    ;
    assert((r * 0x100_0000) * g <= (0x100_001c * c) * g) by (nonlinear_arith)
        requires
            (r * 0x100_0000) * g <= 0x100_001c * gc,
            gc == g * c,
    ;
    assert(r * 0x100_0000 <= 0x100_001c * c) by (nonlinear_arith)
        requires
            (r * 0x100_0000) * g <= (0x100_001c * c) * g,
            g >= 1,
    ;
    lemma_infinity();
    assert(unsigned(INFINITY) == INFINITY);
    let p = fmul(y, ceiling);
    assert(magnitude(p) <= r) by {
        if r >= pow2(277) {
            lemma_magnitude_order(p, INFINITY);
            lemma_magnitude_order(INFINITY, p);
        }
    }
}

/// A ceiling above the least is far from zero.
proof fn lemma_some_ceiling(ceiling: Bits)
    requires
        is_finite(ceiling),
        !at_most(ceiling, MILLIONTH),
    ensures
        magnitude(ceiling) >= 0x100_0000,
{
    lemma2_to64();
    assert(significand(MILLIONTH) >= 0x80_0000 && last_digit(MILLIONTH) >= 24);
    lemma_pow2_strictly_increases(1, last_digit(MILLIONTH));
    let a = pow2(last_digit(MILLIONTH));
    lemma_pow2_pos(last_digit(MILLIONTH));
    assert(magnitude(MILLIONTH) >= 0x100_0000) by (nonlinear_arith)
        requires
            magnitude(MILLIONTH) == significand(MILLIONTH) * a,
            significand(MILLIONTH) >= 0x80_0000,
            a >= 2,
    ;
}

/// The polynomial clippers keep every sample within the ceiling, but for the
/// roundings on the way: these come to less than a 2^18-th of it.
pub proof fn law_polynomials_within_ceiling(sample: Bits, ceiling: Bits, kind: ClipperType, f: Bits, f_one: Bits)
    requires
        is_finite(ceiling),
        at_most(0, ceiling),
        kind is Quintic || kind is Cubic,
        !is_nan(in_ceilings(sample, ceiling)),
    ensures
        !is_nan(shaped(sample, ceiling, kind, f, f_one)),
        magnitude(shaped(sample, ceiling, kind, f, f_one)) * 0x4_0000 <= magnitude(ceiling) * 0x4_0001,
{
    if at_most(ceiling, MILLIONTH) {
        lemma_zero(0);
    } else {
        let n = in_ceilings(sample, ceiling);
        lemma_some_ceiling(ceiling);
        lemma_polynomial(n, kind, f, f_one);
        lemma_near_ceiling(curve_at(kind, n, f, f_one), ceiling);
    }
}

proof fn lemma_polynomial(n: Bits, kind: ClipperType, f: Bits, f_one: Bits)
    requires
        kind is Quintic || kind is Cubic,
        !is_nan(n),
    ensures
        is_finite(curve_at(kind, n, f, f_one)),
        magnitude(curve_at(kind, n, f, f_one)) <= unit() + 25 * grain(),
{
    lemma_rails();
    lemma_units();
    lemma_absolute(n);
    if !at_most(ONE, fabs(n)) {
        assert(magnitude(n) < magnitude(ONE));
        lemma_magnitude_order(n, ONE);
        lemma_magnitude_order(ONE, n);
        assert(unsigned(ONE) == ONE);
        assert(is_finite(n));
        if kind is Cubic {
            lemma_cubic_rounded(n);
        } else {
            lemma_quintic_rounded(n);
        }
    } else {
        assert(unsigned(ONE) == ONE && unsigned(MINUS_ONE) == ONE);
    }
}

/// Is a curve's function bounded as it should be? The hyperbolic tangent and the
/// sine stay within one, the arctangent within a quarter turn, and the root of
/// `1 + n^2` does not fall below `n`.
pub open spec fn function_is_bounded(kind: ClipperType, n: Bits, f: Bits) -> bool {
    match kind {
        ClipperType::Tangent | ClipperType::SineFold => at_most(MINUS_ONE, f) && at_most(f, ONE),
        ClipperType::Arctangent => !is_nan(f) && magnitude(f) <= magnitude(QUARTER_TURN),
        ClipperType::Algebraic => is_finite(n) && at_most(fabs(n), f) && !is_zero(f),
        _ => false,
    }
}

/// The clippers that rest on a function keep every sample within the ceiling,
/// wherever their function is bounded as it should be.
pub proof fn law_functions_within_ceiling(sample: Bits, ceiling: Bits, kind: ClipperType, f: Bits, f_one: Bits)
    requires
        is_finite(ceiling),
        at_most(0, ceiling),
        function_is_bounded(kind, in_ceilings(sample, ceiling), f),
    ensures
        at_most(fabs(shaped(sample, ceiling, kind, f, f_one)), ceiling),
{
    let n = in_ceilings(sample, ceiling);
    lemma_rails();
    if kind is Arctangent {
        lemma_ratio_within(f, QUARTER_TURN);
    } else if kind is Algebraic {
        lemma_absolute(n);
        if !is_infinite(f) {
            lemma_ratio_within(n, f);
        } else {
            lemma_zero(fdiv(n, f));
        }
    }
    law_bounded_by_ceiling(sample, ceiling, kind, f, f_one);
}

/// A quotient by something larger is within one.
proof fn lemma_ratio_within(a: Bits, b: Bits)
    requires
        !is_nan(a),
        is_finite(b),
        !is_zero(b),
        magnitude(a) <= magnitude(b),
    ensures
        at_most(MINUS_ONE, fdiv(a, b)),
        at_most(fdiv(a, b), ONE),
{
    lemma_rails();
    lemma_units();
    lemma_zero(b);
    assert(is_finite(a)) by {
        lemma_infinity();
        lemma_magnitude_order(b, INFINITY);
        lemma_magnitude_order(INFINITY, a);
        lemma_magnitude_order(INFINITY, b);
        assert(unsigned(INFINITY) == INFINITY);
    }
    let one = pow2(149);
    let num = magnitude(a) * one;
    let den = magnitude(b);
    lemma_ratio_pattern(num, den, negative(a) != negative(b));
    assert(num <= one * den) by (nonlinear_arith)
        requires
            num == magnitude(a) * one,
            magnitude(a) <= den,
    ;
    lemma_ratio_between(num, den, one, 24);
    crate::arith::lemma_pattern_exact(ONE);
}

// ---- Both signs alike -------------------------------------------------------

/// Opposite numbers, or no numbers both.
pub open spec fn mirrored(a: Bits, b: Bits) -> bool {
    if is_nan(a) {
        is_nan(b)
    } else {
        !is_nan(b) && value(b) == -value(a)
    }
}

/// The same number, with the opposite sign where `flip` holds, or no number both.
spec fn twin(a: Bits, b: Bits, flip: bool) -> bool {
    if is_nan(a) {
        is_nan(b)
    } else {
        &&& !is_nan(b)
        &&& unsigned(a) == unsigned(b)
        &&& unsigned(a) == 0 || (negative(a) != negative(b)) == flip
    }
}

proof fn lemma_twin(a: Bits, b: Bits)
    ensures
        twin(a, b, true) <==> mirrored(a, b),
        magnitude(a) == 0 <==> unsigned(a) == 0,
{
    lemma_zero(a);
    lemma_zero(b);
    lemma_magnitude_order(a, b);
    lemma_magnitude_order(b, a);
}

/// Numbers of one magnitude have one pattern, but for the sign.
proof fn lemma_twin_patterns(a: Bits, b: Bits, m: nat, minus: bool, flip: bool)
    requires
        crate::arith::is_pattern(a, minus, m),
        crate::arith::is_pattern(b, minus != flip, m),
    ensures
        twin(a, b, flip),
{
    lemma_magnitude_order(a, b);
    lemma_magnitude_order(b, a);
}

proof fn lemma_twin_product(a: Bits, a2: Bits, p: bool, b: Bits, b2: Bits, q: bool)
    requires
        twin(a, a2, p),
        twin(b, b2, q),
    ensures
        twin(fmul(a, b), fmul(a2, b2), p != q),
{
    lemma_units();
    if is_finite(a) && is_finite(b) {
        lemma_same_magnitude(a, a2);
        lemma_same_magnitude(b, b2);
        let num = magnitude(a) * magnitude(b);
        let one = pow2(149);
        let minus = negative(a) != negative(b);
        let minus2 = negative(a2) != negative(b2);
        lemma_ratio_pattern(num, one, minus);
        lemma_ratio_pattern(num, one, minus2);
        lemma_twin_patterns(fmul(a, b), fmul(a2, b2), nearest_ratio(num, one, 24), minus, minus2 != minus);
        if unsigned(a) == 0 || unsigned(b) == 0 {
            lemma_zero(a);
            lemma_zero(b);
            assert(num == 0) by (nonlinear_arith)
                requires
                    magnitude(a) == 0 || magnitude(b) == 0,
                    num == magnitude(a) * magnitude(b),
            ;
            lemma_nothing(one);
            lemma_zero(fmul(a, b));
            lemma_pow2_pos(277);
        }
    }
}

proof fn lemma_twin_ratio(a: Bits, a2: Bits, b: Bits)
    requires
        twin(a, a2, true),
    ensures
        twin(fdiv(a, b), fdiv(a2, b), true),
{
    lemma_units();
    if is_finite(a) && is_finite(b) && !is_zero(b) {
        lemma_same_magnitude(a, a2);
        lemma_zero(b);
        let num = magnitude(a) * pow2(149);
        let den = magnitude(b);
        let minus = negative(a) != negative(b);
        let minus2 = negative(a2) != negative(b);
        lemma_ratio_pattern(num, den, minus);
        lemma_ratio_pattern(num, den, minus2);
        lemma_twin_patterns(fdiv(a, b), fdiv(a2, b), nearest_ratio(num, den, 24), minus, minus2 != minus);
        if unsigned(a) == 0 {
            lemma_zero(a);
            assert(num == 0) by (nonlinear_arith)
                requires
                    magnitude(a) == 0,
                    num == magnitude(a) * pow2(149),
            ;
            lemma_nothing(den);
            lemma_zero(fdiv(a, b));
            lemma_pow2_pos(277);
        }
    }
}

proof fn lemma_twin_sum(a: Bits, a2: Bits, b: Bits, b2: Bits)
    requires
        twin(a, a2, true),
        twin(b, b2, true),
    ensures
        twin(fadd(a, b), fadd(a2, b2), true),
{
    if is_finite(a) && is_finite(b) {
        lemma_twin(a, a2);
        lemma_twin(b, b2);
        lemma_sum(a, b);
        lemma_sum(a2, b2);
        let x = value(a) + value(b);
        let r = fadd(a, b);
        let r2 = fadd(a2, b2);
        assert(value(a2) + value(b2) == -x);
        lemma_magnitude_order(r, r2);
        lemma_magnitude_order(r2, r);
        if x == 0 {
            lemma2_to64();
            crate::rounding::lemma_nearest_bounds(0, 24);
            lemma_pow2_pos(277);
            lemma_zero(r);
        }
    }
}

proof fn lemma_same_magnitude(a: Bits, b: Bits)
    requires
        unsigned(a) == unsigned(b),
    ensures
        magnitude(a) == magnitude(b),
{
    lemma_magnitude_order(a, b);
}

/// Nothing divided is nothing.
proof fn lemma_nothing(den: nat)
    requires
        den > 0,
    ensures
        nearest_ratio(0, den, 24) == 0,
{
    assert(0nat / den == 0) by (nonlinear_arith)
        requires
            den > 0,
    ;
    lemma_ratio_between(0, den, 0, 24);
    crate::rounding::lemma_nearest_bounds(0, 24);
    assert(0 * den == 0);
}

proof fn lemma_twin_negated(b: Bits)
    ensures
        twin(b, negated(b), true),
{
    lemma_negated(b);
}

proof fn lemma_twin_difference(a: Bits, a2: Bits, b: Bits, b2: Bits)
    requires
        twin(a, a2, true),
        twin(b, b2, true),
    ensures
        twin(fsub(a, b), fsub(a2, b2), true),
{
    lemma_negated(b);
    lemma_negated(b2);
    lemma_twin_sum(a, a2, negated(b), negated(b2));
}

proof fn lemma_twin_clamped(a: Bits, a2: Bits)
    requires
        twin(a, a2, true),
    ensures
        twin(
            crate::single::clamped(a, MINUS_ONE, ONE),
            crate::single::clamped(a2, MINUS_ONE, ONE),
            true,
        ),
{
    lemma_twin(a, a2);
    lemma_rails();
    assert(unsigned(ONE) == ONE && unsigned(MINUS_ONE) == ONE);
}

/// Is the function of a curve odd or even as it should be? `f` is what it gives
/// on one side, and `f2` on the other.
pub open spec fn function_is_symmetric(kind: ClipperType, f: Bits, f2: Bits) -> bool {
    match kind {
        ClipperType::Hard | ClipperType::Quintic | ClipperType::Cubic => true,
        ClipperType::Algebraic => f2 == f,
        ClipperType::Sigmoid => mirrored(logistic(f), logistic(f2)),
        _ => f2 == negated(f),
    }
}

proof fn lemma_curve_is_odd(kind: ClipperType, n: Bits, n2: Bits, f: Bits, f2: Bits, f_one: Bits)
    requires
        twin(n, n2, true),
        function_is_symmetric(kind, f, f2),
    ensures
        twin(curve_at(kind, n, f, f_one), curve_at(kind, n2, f2, f_one), true),
{
    match kind {
        ClipperType::Hard => {
            lemma_twin_clamped(n, n2);
        },
        ClipperType::Quintic | ClipperType::Cubic => {
            lemma_polynomial_is_odd(kind, n, n2, f, f2, f_one);
        },
        ClipperType::Tangent | ClipperType::SineFold => {
            lemma_twin_negated(f);
        },
        ClipperType::Algebraic => {
            lemma_twin_ratio(n, n2, f);
        },
        ClipperType::Arctangent => {
            lemma_twin_negated(f);
            lemma_twin_ratio(f, f2, QUARTER_TURN);
        },
        ClipperType::TanhDrive => {
            lemma_twin_negated(f);
            lemma_twin_ratio(f, f2, f_one);
            lemma_twin_clamped(fdiv(f, f_one), fdiv(f2, f_one));
        },
        ClipperType::Sigmoid => {
            let s = fmax(logistic(f_one), MILLIONTH);
            lemma_twin(logistic(f), logistic(f2));
            lemma_twin_ratio(logistic(f), logistic(f2), s);
            lemma_twin_clamped(fdiv(logistic(f), s), fdiv(logistic(f2), s));
        },
    }
}

proof fn lemma_polynomial_is_odd(kind: ClipperType, n: Bits, n2: Bits, f: Bits, f2: Bits, f_one: Bits)
    requires
        twin(n, n2, true),
        kind is Quintic || kind is Cubic,
    ensures
        twin(curve_at(kind, n, f, f_one), curve_at(kind, n2, f2, f_one), true),
{
    lemma_rails();
    assert(unsigned(ONE) == ONE && unsigned(MINUS_ONE) == ONE);
    if !is_nan(n) {
        lemma_absolute(n);
        lemma_absolute(n2);
        lemma_same_magnitude(n, n2);
        lemma_zero(n);
        lemma_pow2_pos(149);
    } else {
        assert(is_nan(fabs(n)) && is_nan(fabs(n2)));
    }
    if !at_most(ONE, fabs(n)) {
        if kind is Cubic {
            let h = fmul(HALF, n);
            let h2 = fmul(HALF, n2);
            lemma_twin_product(ONE_AND_HALF, ONE_AND_HALF, false, n, n2, true);
            lemma_twin_product(HALF, HALF, false, n, n2, true);
            lemma_twin_product(h, h2, true, n, n2, true);
            lemma_twin_product(fmul(h, n), fmul(h2, n2), false, n, n2, true);
            lemma_twin_difference(
                fmul(ONE_AND_HALF, n),
                fmul(ONE_AND_HALF, n2),
                fmul(fmul(h, n), n),
                fmul(fmul(h2, n2), n2),
            );
        } else {
            lemma_quintic_is_odd(n, n2);
        }
    }
}

proof fn lemma_quintic_is_odd(n: Bits, n2: Bits)
    requires
        twin(n, n2, true),
    ensures
        ({
            let c = fmul(fmul(n, n), n);
            let c2 = fmul(fmul(n2, n2), n2);
            let e = fmul(fmul(c, n), n);
            let e2 = fmul(fmul(c2, n2), n2);
            let y = fdiv(fadd(fsub(fmul(FIFTEEN, n), fmul(TEN, c)), fmul(THREE, e)), EIGHT);
            let y2 = fdiv(fadd(fsub(fmul(FIFTEEN, n2), fmul(TEN, c2)), fmul(THREE, e2)), EIGHT);
            twin(y, y2, true)
        }),
{
    let c = fmul(fmul(n, n), n);
    let c2 = fmul(fmul(n2, n2), n2);
    lemma_twin_product(n, n2, true, n, n2, true);
    lemma_twin_product(fmul(n, n), fmul(n2, n2), false, n, n2, true);
    lemma_twin_product(c, c2, true, n, n2, true);
    lemma_twin_product(fmul(c, n), fmul(c2, n2), false, n, n2, true);
    let e = fmul(fmul(c, n), n);
    let e2 = fmul(fmul(c2, n2), n2);
    lemma_twin_product(FIFTEEN, FIFTEEN, false, n, n2, true);
    lemma_twin_product(TEN, TEN, false, c, c2, true);
    lemma_twin_product(THREE, THREE, false, e, e2, true);
    lemma_twin_difference(fmul(FIFTEEN, n), fmul(FIFTEEN, n2), fmul(TEN, c), fmul(TEN, c2));
    let d = fsub(fmul(FIFTEEN, n), fmul(TEN, c));
    let d2 = fsub(fmul(FIFTEEN, n2), fmul(TEN, c2));
    lemma_twin_sum(d, d2, fmul(THREE, e), fmul(THREE, e2));
    lemma_twin_ratio(fadd(d, fmul(THREE, e)), fadd(d2, fmul(THREE, e2)), EIGHT);
}

/// The clipper treats both signs alike: the opposite sample comes out as the
/// opposite, wherever the curve's function is odd or even as it should be.
pub proof fn law_shape_is_odd(sample: Bits, ceiling: Bits, kind: ClipperType, f: Bits, f2: Bits, f_one: Bits)
    requires
        function_is_symmetric(kind, f, f2),
    ensures
        mirrored(
            shaped(sample, ceiling, kind, f, f_one),
            shaped(negated(sample), ceiling, kind, f2, f_one),
        ),
{
    if at_most(ceiling, MILLIONTH) {
        lemma_zero(0);
    } else {
        let n = in_ceilings(sample, ceiling);
        let n2 = in_ceilings(negated(sample), ceiling);
        lemma_twin_negated(sample);
        lemma_twin_ratio(sample, negated(sample), ceiling);
        lemma_curve_is_odd(kind, n, n2, f, f2, f_one);
        let y = curve_at(kind, n, f, f_one);
        let y2 = curve_at(kind, n2, f2, f_one);
        lemma_twin_product(y, y2, true, ceiling, ceiling, false);
        lemma_twin(
            shaped(sample, ceiling, kind, f, f_one),
            shaped(negated(sample), ceiling, kind, f2, f_one),
        );
    }
}

/// The cubic curve is `(3 n - n^3) / 2` and the quintic is `(15 n - 10 n^3 + 3 n^5) / 8`
/// within full scale, up to rounding, and full scale with the sign of `n` beyond it. All
/// stand as values, in units of one.
pub proof fn law_polynomial_curves(n: Bits, f: Bits, f_one: Bits)
    requires
        !is_nan(n),
    ensures
        magnitude(n) >= pow2(149) ==> {
            &&& value(curve_at(ClipperType::Cubic, n, f, f_one)) == (if negative(n) { -unit() } else { unit() })
            &&& value(curve_at(ClipperType::Quintic, n, f, f_one)) == (if negative(n) { -unit() } else { unit() })
        },
        magnitude(n) < pow2(149) ==> ({
            let u = unit();
            let v = value(n);
            let v3 = v * v * v;
            let cubic = value(curve_at(ClipperType::Cubic, n, f, f_one));
            let few = 24 * (grain() * (u * u));
            -few <= (2 * cubic) * (u * u) - (3 * (v * (u * u)) - v3) <= few
        }),
        magnitude(n) < pow2(149) ==> ({
            let u = unit();
            let v = value(n);
            let v3 = v * v * v;
            let v5 = v3 * v * v;
            let u4 = u * u * u * u;
            let quintic = value(curve_at(ClipperType::Quintic, n, f, f_one));
            let few = 200 * (grain() * u4);
            -few <= (8 * quintic) * u4 - (15 * (v * u4) - 10 * (v3 * (u * u)) + 3 * v5) <= few
        }),
{
    lemma_rails();
    lemma_units();
    lemma_absolute(n);
    assert(unsigned(ONE) == ONE && unsigned(MINUS_ONE) == ONE);
    if magnitude(n) < pow2(149) {
        lemma_magnitude_order(n, ONE);
        lemma_cubic_rounded(n);
        lemma_quintic_rounded(n);
    }
}

} // verus!
