//! How far results of single-precision arithmetic are from the exact ones.
//!
//! Numbers stand here by their values, in multiples of 2^-149. One step of the
//! arithmetic is off by a 2^24th at most, unless its result is very small; several
//! steps are off by about as many of these.

use vstd::prelude::*;
use vstd::arithmetic::div_mod::*;
use vstd::arithmetic::power2::*;
use crate::arith::{abs, number, lemma_ratio_pattern, lemma_sum};
use crate::fft::lemma_word;
use crate::rounding::{bit_len, nearest, nearest_ratio, lemma_bit_len, lemma_nearest_bounds, lemma_nearest_scaled, lemma_ratio_between, lemma_ratio_error};
use crate::scalar::{fadd, fdiv, fmul, fsub, negated, truncated, lemma_negated};
use crate::single::{Bits, at_most_index, is_finite, magnitude, negative, value, lemma_zero};

verus! {

/// One, in the units of values.
pub open spec fn one() -> int {
    pow2(149) as int
}

/// `x` is `p / q`, up to `e` parts in 2^24.
pub open spec fn is_near(x: int, p: int, q: int, e: int) -> bool {
    -(e * p) <= (x * q - p) * 0x100_0000 <= e * p
}

pub proof fn lemma_one()
    ensures
        one() > 0,
        one() == pow2(149),
        one() == 0x100_0000 * pow2(125),
        one() == 0x80_0000 * pow2(126),
        one() * 0x1_0000_0000 < pow2(277),
{
    lemma2_to64();
    lemma_pow2_pos(149);
    lemma_pow2_pos(125);
    lemma_pow2_adds(24, 125);
    lemma_pow2_adds(23, 126);
    lemma_pow2_adds(32, 149);
    lemma_pow2_strictly_increases(181, 277);
}

/// One more factor.
pub proof fn lemma_near_factor(x: int, p: int, q: int, e: int, y: int, r: int, s: int, f: int)
    requires
        x >= 0,
        p >= 0,
        q > 0,
        r >= 0,
        s > 0,
        0 <= e <= 1024,
        0 <= f <= 1024,
        is_near(x, p, q, e),
        is_near(y, x * r, s, f),
    ensures
        is_near(y, p * r, q * s, e + f + 1),
{
    let d: int = 0x100_0000;
    let a = y * s - x * r;
    let b = x * q - p;
    let pr = p * r;
    assert(y * (q * s) - pr == a * q + b * r) by (nonlinear_arith)
        requires
            a == y * s - x * r,
            b == x * q - p,
            pr == p * r,
    ;
    let fx = f * (x * r);
    assert(-(fx * q) <= (a * d) * q <= fx * q) by (nonlinear_arith)
        requires
            -fx <= a * d <= fx,
            q > 0,
    ;
    assert((a * d) * q == (a * q) * d) by (nonlinear_arith);
    let ep = e * p;
    assert(-(ep * r) <= (b * d) * r <= ep * r) by (nonlinear_arith)
        requires
            -ep <= b * d <= ep,
            r >= 0,
    ;
    assert((b * d) * r == (b * r) * d && ep * r == e * pr) by (nonlinear_arith)
        requires
            ep == e * p,
            pr == p * r,
    ;
    // what the first error does to the second
    assert(fx * q <= (f + 1) * pr) by {
        let xq = x * q;
        assert(xq * d <= p * d + ep);
        assert((xq * r) * d <= pr * d + e * pr) by (nonlinear_arith)
            requires
                xq * d <= p * d + e * p,
                r >= 0,
                pr == p * r,
        ;
        let z = xq * r;
        assert(pr >= 0) by (nonlinear_arith)
            requires
                p >= 0,
                r >= 0,
                pr == p * r,
        ;
        assert(f * e <= d) by (nonlinear_arith)
            requires
                0 <= e <= 1024,
                0 <= f <= 1024,
                d == 0x100_0000,
        ;
        assert((f * z) * d <= ((f + 1) * pr) * d) by (nonlinear_arith)
            requires
                z * d <= pr * d + e * pr,
                f * e <= d,
                f >= 0,
                pr >= 0,
        ;
        assert(f * z <= (f + 1) * pr) by (nonlinear_arith)
            requires
                (f * z) * d <= ((f + 1) * pr) * d,
                d == 0x100_0000,
        ;
        assert(fx * q == f * z) by (nonlinear_arith)
            requires
                fx == f * (x * r),
                z == (x * q) * r,
        ;
    }
    assert((e + f + 1) * pr == e * pr + (f + 1) * pr) by (nonlinear_arith);
}

/// A divisor that is itself off.
pub proof fn lemma_near_divisor(b: int, n: int, m: int, e: int, y: int, z: int, f: int)
    requires
        y >= 0,
        z >= 0,
        b > 0,
        n > 0,
        m > 0,
        0 <= e <= 1024,
        0 <= f <= 1024,
        is_near(b, n, m, e),
        is_near(y, z, b, f),
    ensures
        is_near(y, z * m, n, e + f + 1),
{
    let d: int = 0x100_0000;
    let a = y * b - z;
    let c = b * m - n;
    let zm = z * m;
    let yn = y * n;
    assert(yn - zm == a * m - y * c) by (nonlinear_arith)
        requires
            a == y * b - z,
            c == b * m - n,
            zm == z * m,
            yn == y * n,
    ;
    let fz = f * z;
    assert(-(f * zm) <= (a * m) * d <= f * zm) by (nonlinear_arith)
        requires
            -fz <= a * d <= fz,
            fz == f * z,
            zm == z * m,
            m > 0,
    ;
    let en = e * n;
    assert(-(e * yn) <= (y * c) * d <= e * yn) by (nonlinear_arith)
        requires
            -en <= c * d <= en,
            en == e * n,
            yn == y * n,
            y >= 0,
    ;
    assert(zm >= 0 && yn >= 0) by (nonlinear_arith)
        requires
            zm == z * m,
            yn == y * n,
            z >= 0,
            m > 0,
            y >= 0,
            n > 0,
    ;
    assert((yn - zm) * d == (a * m) * d - (y * c) * d) by (nonlinear_arith)
        requires
            yn - zm == a * m - y * c,
    ;
    assert(e * yn <= (e + 1) * zm) by {
        assert(yn * (d - e) <= zm * (d + f)) by (nonlinear_arith)
            requires
                (yn - zm) * d <= f * zm + e * yn,
        ;
        assert(e * (d + f) <= (e + 1) * (d - e)) by (nonlinear_arith)
            requires
                0 <= e <= 1024,
                0 <= f <= 1024,
                d == 0x100_0000,
        ;
        let g = d - e;
        let h = d + f;
        assert((e * yn) * g <= ((e + 1) * zm) * g) by (nonlinear_arith)
            requires
                yn * g <= zm * h,
                e * h <= (e + 1) * g,
                e >= 0,
                zm >= 0,
        ;
        assert(e * yn <= (e + 1) * zm) by (nonlinear_arith)
            requires
                (e * yn) * g <= ((e + 1) * zm) * g,
                g > 0,
        ;
    }
    assert((e + f + 1) * zm == f * zm + (e + 1) * zm) by (nonlinear_arith);
}

/// A coarser bound.
pub proof fn lemma_near_coarser(x: int, p: int, q: int, e: int, f: int)
    requires
        is_near(x, p, q, e),
        p >= 0,
        e <= f,
    ensures
        is_near(x, p, q, f),
{
    assert(e * p <= f * p) by (nonlinear_arith)
        requires
            e <= f,
            p >= 0,
    ;
}

/// A common factor of both sides of a ratio.
pub proof fn lemma_near_cancel(x: int, p: int, q: int, c: int, e: int)
    requires
        c > 0,
    ensures
        is_near(x, p, q, e) <==> is_near(x, p * c, q * c, e),
{
    let d: int = 0x100_0000;
    let l = (x * q - p) * d;
    let ep = e * p;
    assert((x * (q * c) - p * c) * d == l * c) by (nonlinear_arith)
        requires
            l == (x * q - p) * d,
    ;
    assert(e * (p * c) == ep * c) by (nonlinear_arith)
        requires
            ep == e * p,
    ;
    assert(-ep <= l <= ep <==> -(ep * c) <= l * c <= ep * c) by (nonlinear_arith)
        requires
            c > 0,
    ;
}

// ---- One step ---------------------------------------------------------------

/// A rounded ratio, unless it is very small.
proof fn lemma_near_ratio(num: nat, den: nat)
    requires
        den > 0,
        num >= den * 0x80_0000,
    ensures
        is_near(nearest_ratio(num, den, 24) as int, num as int, den as int, 1),
{
    lemma2_to64();
    lemma_ratio_error(num, den, 24);
    let x = num / den;
    assert(x >= 0x80_0000) by {
        lemma_div_is_ordered((den * 0x80_0000) as int, num as int, den as int);
        lemma_div_by_multiple(0x80_0000, den as int);
    }
    lemma_bit_len(x);
    if bit_len(x) < 24 {
        if bit_len(x) < 23 {
            lemma_pow2_strictly_increases(bit_len(x), 23);
        }
    }
    let r = nearest_ratio(num, den, 24);
    assert((r * den - num) * 0x100_0000 == r * den * 0x100_0000 - num * 0x100_0000);
}

/// A whole number up to 2^24 is exact.
pub proof fn lemma_small_number(n: nat)
    requires
        n <= 0x100_0000,
    ensures
        is_finite(number(n)),
        !negative(number(n)),
        value(number(n)) == n * one(),
{
    lemma2_to64();
    lemma_word(n);
    if n == 0x100_0000 {
        crate::fft::lemma_power(24);
    } else {
        lemma_bit_len(n);
        if bit_len(n) > 24 {
            if bit_len(n) - 1 > 24 {
                lemma_pow2_strictly_increases(24, (bit_len(n) - 1) as nat);
            }
        }
        lemma_nearest_bounds(n, 24);
    }
}

/// A whole number.
pub proof fn lemma_near_number(n: nat)
    requires
        n <= u64::MAX,
    ensures
        is_finite(number(n)),
        !negative(number(n)),
        value(number(n)) >= 0,
        n >= 1 ==> value(number(n)) >= one(),
        value(number(n)) <= pow2(213),
        is_near(value(number(n)), n * one(), 1, 1),
{
    lemma_one();
    lemma_word(n);
    if n <= 0x80_0000 {
        lemma_small_number(n);
        assert(n * one() >= 0) by (nonlinear_arith)
            requires
                n >= 0,
                one() > 0,
        ;
        assert((n * one()) * 1 - n * one() == 0);
    } else {
        lemma_near_ratio(n, 1);
        let r = nearest(n, 24);
        let u = one();
        assert(is_near(r as int, n as int, 1, 1));
        assert(-(1 * n) * u <= ((r * 1 - n) * 0x100_0000) * u <= (1 * n) * u) by (nonlinear_arith)
            requires
                -(1 * n) <= (r * 1 - n) * 0x100_0000 <= 1 * n,
                u > 0,
        ;
        assert(((r * 1 - n) * 0x100_0000) * u == ((r * u) * 1 - n * u) * 0x100_0000) by (nonlinear_arith);
        assert((1 * n) * u == 1 * (n * u) && -(1 * n) * u == -(1 * (n * u))) by (nonlinear_arith);
    }
}

/// A quotient of positive numbers that is neither very small nor too large.
pub proof fn lemma_near_quotient(a: Bits, b: Bits)
    requires
        is_finite(a),
        is_finite(b),
        value(a) >= 0,
        value(b) > 0,
        value(a) * one() >= value(b) * 0x80_0000,
        value(a) * one() <= value(b) * pow2(276),
    ensures
        is_finite(fdiv(a, b)),
        value(fdiv(a, b)) >= 0,
        is_near(value(fdiv(a, b)), value(a) * one(), value(b), 1),
{
    lemma_one();
    lemma_zero(a);
    lemma_zero(b);
    let num = magnitude(a) * pow2(149);
    let den = magnitude(b);
    assert(value(a) == magnitude(a) && value(b) == magnitude(b));
    lemma_near_ratio(num, den);
    let minus = negative(a) != negative(b);
    lemma_ratio_pattern(num, den, minus);
    let r = nearest_ratio(num, den, 24);
    lemma_below(num, den, r);
    assert(!negative(b));
    if negative(a) {
        assert(magnitude(a) == 0);
        assert(den * 0x80_0000 > 0) by (nonlinear_arith)
            requires
                den > 0,
        ;
        assert(0 * pow2(149) == 0);
    }
}

/// A product of positive numbers that is neither very small nor too large.
pub proof fn lemma_near_product(a: Bits, b: Bits)
    requires
        is_finite(a),
        is_finite(b),
        value(a) > 0,
        value(b) > 0,
        value(a) * value(b) >= one() * 0x80_0000,
        value(a) * value(b) <= one() * pow2(276),
    ensures
        is_finite(fmul(a, b)),
        value(fmul(a, b)) >= 0,
        is_near(value(fmul(a, b)), value(a) * value(b), one(), 1),
{
    lemma_one();
    let num = magnitude(a) * magnitude(b);
    let den = pow2(149);
    assert(value(a) == magnitude(a) && value(b) == magnitude(b));
    lemma_near_ratio(num, den);
    let minus = negative(a) != negative(b);
    lemma_ratio_pattern(num, den, minus);
    let r = nearest_ratio(num, den, 24);
    lemma_below(num, den, r);
}

/// A ratio of up to 2^127 stays finite.
proof fn lemma_below(num: nat, den: nat, r: nat)
    requires
        den > 0,
        num <= den * pow2(276),
        is_near(r as int, num as int, den as int, 1),
    ensures
        r < pow2(277),
{
    lemma_pow2_unfold(277);
    lemma_pow2_pos(276);
    let p = pow2(276);
    assert(r * den < 2 * p * den) by (nonlinear_arith)
        requires
            (r * den - num) * 0x100_0000 <= 1 * num,
            num <= den * p,
            den > 0,
            p > 0,
    ;
    assert(r < 2 * p) by (nonlinear_arith)
        requires
            r * den < 2 * p * den,
            den > 0,
    ;
}

// ---- However small ----------------------------------------------------------

/// A product of numbers that are not negative, however small.
pub proof fn lemma_product_error(a: Bits, b: Bits)
    requires
        is_finite(a),
        is_finite(b),
        value(a) >= 0,
        value(b) >= 0,
        value(a) * value(b) <= one() * pow2(275),
    ensures
        is_finite(fmul(a, b)),
        value(fmul(a, b)) >= 0,
        ({
            let off = value(fmul(a, b)) * one() - value(a) * value(b);
            let most = value(a) * value(b) + one() * 0x100_0000;
            -most <= off * 0x100_0000 <= most
        }),
{
    lemma_one();
    lemma2_to64();
    lemma_zero(a);
    lemma_zero(b);
    let num = magnitude(a) * magnitude(b);
    let den = pow2(149);
    assert(value(a) == magnitude(a) && value(b) == magnitude(b));
    let minus = negative(a) != negative(b);
    lemma_ratio_pattern(num, den, minus);
    lemma_ratio_error(num, den, 24);
    let r = nearest_ratio(num, den, 24);
    assert(r < pow2(277)) by {
        lemma_pow2_unfold(277);
        lemma_pow2_unfold(276);
        lemma_pow2_pos(275);
        let p = pow2(275);
        assert(r * den <= 3 * p * den) by (nonlinear_arith)
            requires
                r * den * 0x100_0000 <= num * 0x100_0000 + num + den * 0x100_0000,
                num <= den * p,
                p >= 1,
                den > 0,
        ;
        assert(r <= 3 * p) by (nonlinear_arith)
            requires
                r * den <= 3 * p * den,
                den > 0,
        ;
    }
    if minus {
        assert(num == 0) by {
            if negative(a) {
                assert(magnitude(a) == 0);
                assert(0 * magnitude(b) == 0);
            } else {
                assert(magnitude(b) == 0);
                assert(magnitude(a) * 0 == 0);
            }
        }
        lemma_no_ratio(den);
    }
}

/// Nothing divided by something.
proof fn lemma_no_ratio(den: nat)
    requires
        den > 0,
    ensures
        nearest_ratio(0, den, 24) == 0,
{
    lemma_basic_div(0, den as int);
    assert(bit_len(0) == 0);
    assert(crate::rounding::spacing(0, 24) == 1);
    assert(den * 1 == den);
    lemma_small_mod(0, den);
}

/// A quotient of numbers that are not negative, however small.
pub proof fn lemma_quotient_error(a: Bits, b: Bits)
    requires
        is_finite(a),
        is_finite(b),
        value(a) >= 0,
        value(b) > 0,
        value(a) * one() <= value(b) * pow2(275),
    ensures
        is_finite(fdiv(a, b)),
        value(fdiv(a, b)) >= 0,
        ({
            let off = value(fdiv(a, b)) * value(b) - value(a) * one();
            let most = value(a) * one() + value(b) * 0x100_0000;
            -most <= off * 0x100_0000 <= most
        }),
{
    lemma_one();
    lemma2_to64();
    lemma_zero(a);
    lemma_zero(b);
    let num = magnitude(a) * pow2(149);
    let den = magnitude(b);
    assert(value(a) == magnitude(a) && value(b) == magnitude(b));
    let minus = negative(a) != negative(b);
    lemma_ratio_pattern(num, den, minus);
    lemma_ratio_error(num, den, 24);
    let r = nearest_ratio(num, den, 24);
    assert(r < pow2(277)) by {
        lemma_pow2_unfold(277);
        lemma_pow2_unfold(276);
        lemma_pow2_pos(275);
        let p = pow2(275);
        assert(r * den <= 3 * p * den) by (nonlinear_arith)
            requires
                r * den * 0x100_0000 <= num * 0x100_0000 + num + den * 0x100_0000,
                num <= den * p,
                p >= 1,
                den > 0,
        ;
        assert(r <= 3 * p) by (nonlinear_arith)
            requires
                r * den <= 3 * p * den,
                den > 0,
        ;
    }
    if minus {
        assert(magnitude(a) == 0);
        assert(0 * pow2(149) == 0);
        lemma_no_ratio(den);
    }
}

// ---- Exact results ----------------------------------------------------------

/// A number of 24 digits is its own rounding.
pub proof fn lemma_exact(n: nat, j: nat)
    requires
        n <= 0x100_0000,
        j <= 200,
    ensures
        nearest(n * pow2(j), 24) == n * pow2(j),
        n * pow2(j) < pow2(277),
{
    lemma2_to64();
    lemma_small_number(n);
    lemma_word(n);
    lemma_pow2_pos(149);
    let w = pow2(149);
    assert(nearest(n, 24) == n) by (nonlinear_arith)
        requires
            nearest(n, 24) * w == n * w,
            w > 0,
    ;
    lemma_nearest_scaled(n, j, 24);
    lemma_pow2_adds(24, j);
    lemma_pow2_strictly_increases(24 + j, 277);
    assert(n * pow2(j) <= 0x100_0000 * pow2(j)) by (nonlinear_arith)
        requires
            n <= 0x100_0000,
    ;
}

/// A sum that is a number is exact.
pub proof fn lemma_exact_sum(a: Bits, b: Bits, n: int, j: nat)
    requires
        is_finite(a),
        is_finite(b),
        j <= 200,
        -0x100_0000 <= n <= 0x100_0000,
        value(a) + value(b) == n * pow2(j),
    ensures
        is_finite(fadd(a, b)),
        value(fadd(a, b)) == n * pow2(j),
{
    lemma_sum(a, b);
    let k = abs(n);
    lemma_exact(k, j);
    lemma_pow2_pos(j);
    let w = pow2(j) as int;
    assert(abs(n * w) == k * w) by (nonlinear_arith)
        requires
            k == abs(n),
            w > 0,
    ;
    lemma_zero(fadd(a, b));
}

/// A quotient that is a number is exact.
pub proof fn lemma_exact_quotient(a: Bits, b: Bits, n: nat, j: nat)
    requires
        is_finite(a),
        is_finite(b),
        value(b) > 0,
        j <= 200,
        n <= 0x100_0000,
        value(a) * one() == (n * pow2(j)) * value(b),
    ensures
        is_finite(fdiv(a, b)),
        value(fdiv(a, b)) == n * pow2(j),
{
    lemma_one();
    lemma_zero(a);
    lemma_zero(b);
    lemma_pow2_pos(j);
    let v = value(a);
    let u = one();
    let x = n * pow2(j);
    assert(v >= 0) by (nonlinear_arith)
        requires
            v * u == x * value(b),
            x >= 0,
            value(b) > 0,
            u > 0,
    ;
    let num = magnitude(a) * pow2(149);
    let den = magnitude(b);
    lemma_ratio_between(num, den, x, 24);
    lemma_exact(n, j);
    let minus = negative(a) != negative(b);
    lemma_ratio_pattern(num, den, minus);
    if negative(a) {
        assert(magnitude(a) == 0);
        assert(0 * pow2(149) == 0);
        lemma_no_ratio(den);
    }
}

/// A product that is a number is exact.
pub proof fn lemma_exact_product(a: Bits, b: Bits, n: nat, j: nat)
    requires
        is_finite(a),
        is_finite(b),
        !negative(a),
        !negative(b),
        j <= 200,
        n <= 0x100_0000,
        value(a) * value(b) == (n * pow2(j)) * one(),
    ensures
        is_finite(fmul(a, b)),
        !negative(fmul(a, b)),
        value(fmul(a, b)) == n * pow2(j),
{
    lemma_one();
    let x = n * pow2(j);
    let num = magnitude(a) * magnitude(b);
    lemma_ratio_between(num, pow2(149), x, 24);
    lemma_exact(n, j);
    lemma_ratio_pattern(num, pow2(149), false);
}

/// A product that is neither very small nor too large, whatever the signs.
pub proof fn lemma_near_magnitude(a: Bits, b: Bits)
    requires
        is_finite(a),
        is_finite(b),
        magnitude(a) * magnitude(b) >= one() * 0x80_0000,
        magnitude(a) * magnitude(b) <= one() * pow2(276),
    ensures
        is_finite(fmul(a, b)),
        negative(fmul(a, b)) == (negative(a) != negative(b)),
        is_near(magnitude(fmul(a, b)) as int, (magnitude(a) * magnitude(b)) as int, one(), 1),
{
    lemma_one();
    let num = magnitude(a) * magnitude(b);
    let den = pow2(149);
    lemma_near_ratio(num, den);
    let minus = negative(a) != negative(b);
    lemma_ratio_pattern(num, den, minus);
    let r = nearest_ratio(num, den, 24);
    lemma_below(num, den, r);
}

/// A quotient that is neither very small nor too large, whatever the signs.
pub proof fn lemma_near_share(a: Bits, b: Bits)
    requires
        is_finite(a),
        is_finite(b),
        magnitude(b) > 0,
        magnitude(a) * one() >= magnitude(b) * 0x80_0000,
        magnitude(a) * one() <= magnitude(b) * pow2(276),
    ensures
        is_finite(fdiv(a, b)),
        negative(fdiv(a, b)) == (negative(a) != negative(b)),
        is_near(magnitude(fdiv(a, b)) as int, magnitude(a) * one(), magnitude(b) as int, 1),
{
    lemma_one();
    lemma_zero(b);
    let num = magnitude(a) * pow2(149);
    let den = magnitude(b);
    lemma_near_ratio(num, den);
    let minus = negative(a) != negative(b);
    lemma_ratio_pattern(num, den, minus);
    let r = nearest_ratio(num, den, 24);
    lemma_below(num, den, r);
}

// ---- Places -----------------------------------------------------------------

/// How often one number goes into another.
pub proof fn lemma_times(a: Bits, b: Bits)
    requires
        is_finite(a),
        is_finite(b),
        value(a) >= 0,
        value(b) > 0,
        value(a) <= value(b) * 0x4000_0000,
    ensures
        ({
            let k = at_most_index(truncated(fdiv(a, b)));
            &&& (k * value(b)) * 0x100_0000 <= value(a) * 0x100_0001 + value(b)
            &&& value(a) * 0xff_ffff <= ((k + 1) * value(b)) * 0x100_0000 + value(b)
            &&& k <= 0x4000_0100
        }),
{
    lemma_one();
    lemma2_to64();
    let u = one();
    let x = value(a);
    let y = value(b);
    assert(x * u <= y * pow2(275)) by {
        lemma_pow2_adds(30, 149);
        lemma_pow2_strictly_increases(179, 275);
        assert(x * u <= (y * 0x4000_0000) * u) by (nonlinear_arith)
            requires
                x <= y * 0x4000_0000,
                u > 0,
        ;
        assert((y * 0x4000_0000) * u == y * (0x4000_0000 * u)) by (nonlinear_arith);
        assert(y * (0x4000_0000 * u) <= y * pow2(275)) by (nonlinear_arith)
            requires
                0x4000_0000 * u <= pow2(275),
                y > 0,
        ;
    }
    lemma_quotient_error(a, b);
    let r = fdiv(a, b);
    let q = value(r);
    lemma_zero(r);
    assert(magnitude(r) == q);
    let k = q / u;
    lemma_fundamental_div_mod(q, u);
    lemma_mod_bound(q, u);
    lemma_div_pos_is_pos(q, u);
    let d: int = 0x100_0000;
    let qy = q * y;
    let xu = x * u;
    assert(-(xu + y * d) <= (qy - xu) * d <= xu + y * d);
    assert(y * d <= y * u) by (nonlinear_arith)
        requires
            d <= u,
            y > 0,
    ;
    let ky = k * y;
    assert(ky * u <= qy && qy <= (ky + y) * u) by (nonlinear_arith)
        requires
            ky == k * y,
            qy == q * y,
            u * k <= q < u * k + u,
            y > 0,
    ;
    assert((ky * d) * u <= (x * (d + 1) + y) * u) by (nonlinear_arith)
        requires
            ky * u <= qy,
            (qy - xu) * d <= xu + y * d,
            xu == x * u,
            y * d <= y * u,
            d == 0x100_0000,
    ;
    assert(ky * d <= x * (d + 1) + y) by (nonlinear_arith)
        requires
            (ky * d) * u <= (x * (d + 1) + y) * u,
            u > 0,
    ;
    assert((x * (d - 1)) * u <= ((ky + y) * d + y) * u) by (nonlinear_arith)
        requires
            qy <= (ky + y) * u,
            -(xu + y * d) <= (qy - xu) * d,
            xu == x * u,
            y * d <= y * u,
            d == 0x100_0000,
    ;
    assert(x * (d - 1) <= (ky + y) * d + y) by (nonlinear_arith)
        requires
            (x * (d - 1)) * u <= ((ky + y) * d + y) * u,
            u > 0,
    ;
    assert((k + 1) * y == ky + y) by (nonlinear_arith)
        requires
            ky == k * y,
    ;
    assert(k <= 0x4000_0100) by (nonlinear_arith)
        requires
            (k * y) * d <= x * (d + 1) + y,
            x <= y * 0x4000_0000,
            y > 0,
            d == 0x100_0000,
    ;
    if negative(r) {
        assert(q == 0);
        lemma_basic_div(0, u);
    }
    assert(truncated(r) == k);
}

/// A ratio of two whole numbers.
pub proof fn lemma_whole_ratio(a: nat, b: nat)
    requires
        1 <= a <= 0x10_0000_0000_0000,
        1 <= b <= 0x10_0000_0000_0000,
    ensures
        is_finite(fdiv(number(a), number(b))),
        value(fdiv(number(a), number(b))) > 0,
        is_near(value(fdiv(number(a), number(b))), a * one(), b as int, 8),
{
    lemma_one();
    lemma2_to64();
    lemma2_to64_rest();
    lemma_near_number(a);
    lemma_near_number(b);
    let u = one();
    let x = value(number(a));
    let y = value(number(b));
    let au = a * u;
    let bu = b * u;
    assert(u <= au <= 0x10_0000_0000_0000 * u && u <= bu <= 0x10_0000_0000_0000 * u) by (nonlinear_arith)
        requires
            au == a * u,
            bu == b * u,
            1 <= a <= 0x10_0000_0000_0000,
            1 <= b <= 0x10_0000_0000_0000,
            u > 0,
    ;
    assert(x <= 0x20_0000_0000_0000 * u && y <= 0x20_0000_0000_0000 * u);
    lemma_pow2_adds(54, 149);
    lemma_pow2_strictly_increases(203, 276);
    lemma_pow2_adds(80, 69);
    lemma_pow2_adds(40, 40);
    lemma_pow2_pos(69);
    assert(x * u >= y * 0x80_0000) by {
        assert(u >= 0x20_0000_0000_0000 * 0x80_0000) by {
            lemma_pow2_adds(54, 24);
            lemma_pow2_strictly_increases(78, 149);
        }
        assert(x * u >= u * u) by (nonlinear_arith)
            requires
                x >= u,
                u > 0,
        ;
        assert(u * u >= (0x20_0000_0000_0000 * 0x80_0000) * u) by (nonlinear_arith)
            requires
                u >= 0x20_0000_0000_0000 * 0x80_0000,
        ;
        assert(y * 0x80_0000 <= (0x20_0000_0000_0000 * 0x80_0000) * u) by (nonlinear_arith)
            requires
                y <= 0x20_0000_0000_0000 * u,
        ;
    }
    assert(x * u <= y * pow2(276)) by (nonlinear_arith)
        requires
            x <= 0x20_0000_0000_0000 * u,
            y >= u,
            0x20_0000_0000_0000 * u <= pow2(276),
            u > 0,
    ;
    lemma_near_quotient(number(a), number(b));
    let q = value(fdiv(number(a), number(b)));
    assert(x * u >= 0) by (nonlinear_arith)
        requires
            x >= 0,
            u > 0,
    ;
    lemma_near_divisor(y, bu, 1, 1, q, x * u, 1);
    assert((x * u) * 1 == x * u);
    lemma_near_factor(x, au, 1, 1, q, u, bu, 3);
    assert(1 * bu == bu);
    lemma_near_cancel(q, au, b as int, u, 5);
    lemma_near_coarser(q, au, b as int, 5, 8);
    assert(q > 0) by {
        if q == 0 {
            assert(0 * (b as int) == 0);
        }
    }
}

// ---- Whatever the signs -----------------------------------------------------

/// A 2^24th of one, in the units of values.
pub open spec fn fine() -> int {
    pow2(125) as int
}

pub proof fn lemma_fine()
    ensures
        fine() >= 0x100_0000,
        one() == fine() * 0x100_0000,
        one() > 0,
        one() * 0x1_0000_0000_0000_0000 < pow2(276),
{
    lemma_one();
    lemma2_to64();
    lemma2_to64_rest();
    lemma_pow2_strictly_increases(24, 125);
    lemma_pow2_adds(64, 149);
    lemma_pow2_strictly_increases(213, 276);
}

/// A sum of at most `m`.
pub proof fn lemma_sum_off(a: Bits, b: Bits, m: int)
    requires
        is_finite(a),
        is_finite(b),
        0 <= m <= 0x1000_0000_0000_0000,
        -(m * one()) <= value(a) + value(b) <= m * one(),
    ensures
        is_finite(fadd(a, b)),
        -((m + 1) * fine()) <= value(fadd(a, b)) - (value(a) + value(b)) <= (m + 1) * fine(),
{
    lemma_fine();
    lemma2_to64();
    let u = one();
    let g = fine();
    let x = value(a) + value(b);
    lemma_sum(a, b);
    lemma_ratio_error(abs(x), 1, 24);
    let r = nearest(abs(x), 24);
    assert(r * 1 * 0x100_0000 == r * 0x100_0000);
    let mg = m * g;
    assert(m * u == mg * 0x100_0000) by (nonlinear_arith)
        requires
            u == g * 0x100_0000,
            mg == m * g,
    ;
    assert((m + 1) * g == mg + g) by (nonlinear_arith)
        requires
            mg == m * g,
    ;
    assert(m * u <= 0x1000_0000_0000_0000 * u) by (nonlinear_arith)
        requires
            m <= 0x1000_0000_0000_0000,
            u > 0,
    ;
    lemma_pow2_strictly_increases(276, 277);
    assert(r < pow2(277));
}

/// A difference of at most `m`.
pub proof fn lemma_difference_off(a: Bits, b: Bits, m: int)
    requires
        is_finite(a),
        is_finite(b),
        0 <= m <= 0x1000_0000_0000_0000,
        -(m * one()) <= value(a) - value(b) <= m * one(),
    ensures
        is_finite(fsub(a, b)),
        -((m + 1) * fine()) <= value(fsub(a, b)) - (value(a) - value(b)) <= (m + 1) * fine(),
{
    lemma_negated(b);
    lemma_sum_off(a, negated(b), m);
}

/// A product of at most `m`.
pub proof fn lemma_product_off(a: Bits, b: Bits, m: int)
    requires
        is_finite(a),
        is_finite(b),
        0 <= m <= 0x1000_0000_0000_0000,
        -(m * (one() * one())) <= value(a) * value(b) <= m * (one() * one()),
    ensures
        is_finite(fmul(a, b)),
        -((m + 1) * (fine() * one())) <= value(fmul(a, b)) * one() - value(a) * value(b) <= (m + 1) * (fine() * one()),
{
    lemma_fine();
    lemma_one();
    lemma2_to64();
    let u = one();
    let g = fine();
    let num = magnitude(a) * magnitude(b);
    let minus = negative(a) != negative(b);
    let r = nearest_ratio(num, u as nat, 24);
    lemma_ratio_error(num, u as nat, 24);
    lemma_ratio_pattern(num, u as nat, minus);
    assert(num == (if minus { -(value(a) * value(b)) } else { value(a) * value(b) })) by (nonlinear_arith)
        requires
            num == magnitude(a) * magnitude(b),
            minus == (negative(a) != negative(b)),
            value(a) == (if negative(a) { -(magnitude(a) as int) } else { magnitude(a) as int }),
            value(b) == (if negative(b) { -(magnitude(b) as int) } else { magnitude(b) as int }),
    ;
    let w = g * u;
    let mw = m * w;
    assert(m * (u * u) == mw * 0x100_0000) by (nonlinear_arith)
        requires
            u == g * 0x100_0000,
            w == g * u,
            mw == m * w,
    ;
    assert((m + 1) * w == mw + w) by (nonlinear_arith)
        requires
            mw == m * w,
    ;
    assert(u <= w) by (nonlinear_arith)
        requires
            g >= 1,
            u > 0,
            w == g * u,
    ;
    assert(r * u <= num + mw + w);
    assert(num <= r * u + mw + w);
    assert(w * 0x100_0000 == u * u) by (nonlinear_arith)
        requires
            u == g * 0x100_0000,
            w == g * u,
    ;
    assert(r < pow2(277)) by {
        assert(r * u <= (0x2000_0000_0000_0000 * u) * u + u * u) by (nonlinear_arith)
            requires
                r * u <= num + mw + w,
                num <= m * (u * u),
                m <= 0x1000_0000_0000_0000,
                mw * 0x100_0000 == m * (u * u),
                w * 0x100_0000 == u * u,
                mw >= 0,
                u > 0,
                m >= 0,
        ;
        assert(r <= 0x2000_0000_0000_0000 * u + u) by (nonlinear_arith)
            requires
                r * u <= (0x2000_0000_0000_0000 * u) * u + u * u,
                u > 0,
        ;
        lemma_pow2_strictly_increases(276, 277);
    }
    let p = fmul(a, b);
    assert(value(p) * u == (if minus { -(r * u) } else { r * u })) by (nonlinear_arith)
        requires
            value(p) == (if minus { -(r as int) } else { r as int }),
    ;
}

/// A quotient of at most `m`.
pub proof fn lemma_quotient_off(a: Bits, b: Bits, m: int)
    requires
        is_finite(a),
        is_finite(b),
        value(b) > 0,
        0 <= m <= 0x1000_0000_0000_0000,
        -(m * value(b)) <= value(a) <= m * value(b),
    ensures
        is_finite(fdiv(a, b)),
        -((m + 1) * (fine() * value(b))) <= value(fdiv(a, b)) * value(b) - value(a) * one() <= (m + 1) * (fine()
            * value(b)),
        -((2 * m + 2) * one()) <= value(fdiv(a, b)) <= (2 * m + 2) * one(),
{
    lemma_fine();
    lemma_one();
    lemma2_to64();
    lemma_zero(b);
    let u = one();
    let g = fine();
    let y = value(b);
    let x = magnitude(a) as int;
    let num = magnitude(a) * pow2(149);
    let den = magnitude(b);
    let minus = negative(a) != negative(b);
    let r = nearest_ratio(num, den, 24);
    lemma_ratio_error(num, den, 24);
    lemma_ratio_pattern(num, den, minus);
    let gy = g * y;
    let my = m * y;
    assert(x <= my);
    assert(num <= (m * gy) * 0x100_0000) by (nonlinear_arith)
        requires
            num == x * u,
            x <= m * y,
            u == g * 0x100_0000,
            gy == g * y,
            g > 0,
    ;
    assert((m + 1) * gy == m * gy + gy) by (nonlinear_arith);
    assert(y <= gy) by (nonlinear_arith)
        requires
            gy == g * y,
            g >= 1,
            y > 0,
    ;
    let rd = (r * den) as int;
    assert(rd <= num + m * gy + gy);
    assert(num <= rd + m * gy + gy);
    assert(r <= (2 * m + 2) * u) by (nonlinear_arith)
        requires
            rd <= num + m * gy + gy,
            rd == r * y,
            num <= (m * gy) * 0x100_0000,
            gy == g * y,
            u == g * 0x100_0000,
            y > 0,
            g >= 1,
            0 <= m,
    ;
    assert((2 * m + 2) * u <= 0x2000_0000_0000_0002 * u) by (nonlinear_arith)
        requires
            m <= 0x1000_0000_0000_0000,
            u > 0,
    ;
    lemma_pow2_strictly_increases(276, 277);
    let q = value(fdiv(a, b));
    assert(q * y == (if minus { -rd } else { rd })) by (nonlinear_arith)
        requires
            q == (if minus { -(r as int) } else { r as int }),
            rd == r * y,
    ;
    assert(value(a) * u == (if negative(a) { -(num as int) } else { num as int })) by (nonlinear_arith)
        requires
            value(a) == (if negative(a) { -x } else { x }),
            num == x * u,
    ;
}

/// A difference that is not very small.
pub proof fn lemma_near_difference(a: Bits, b: Bits)
    requires
        is_finite(a),
        is_finite(b),
        0x100_0000 <= value(a) - value(b) <= 0x1000_0000_0000_0000 * one(),
    ensures
        is_finite(fsub(a, b)),
        value(fsub(a, b)) > 0,
        is_near(value(fsub(a, b)), value(a) - value(b), 1, 2),
{
    lemma_fine();
    lemma2_to64();
    lemma_negated(b);
    lemma_difference_off(a, b, 0x1000_0000_0000_0000);
    lemma_sum(a, negated(b));
    let x = value(a) - value(b);
    lemma_ratio_error(x as nat, 1, 24);
    let r = nearest(x as nat, 24);
    assert(r * 1 * 0x100_0000 == r * 0x100_0000);
}

/// A difference, however small and whatever its sign.
pub proof fn lemma_difference_rounds(a: Bits, b: Bits)
    requires
        is_finite(a),
        is_finite(b),
        -(0x1000_0000_0000_0000 * one()) <= value(a) - value(b) <= 0x1000_0000_0000_0000 * one(),
    ensures
        is_finite(fsub(a, b)),
        abs(value(fsub(a, b)) - (value(a) - value(b))) * 0x100_0000 <= abs(value(a) - value(b)) + 0x100_0000,
{
    lemma2_to64();
    lemma_negated(b);
    lemma_difference_off(a, b, 0x1000_0000_0000_0000);
    lemma_sum(a, negated(b));
    let x = value(a) - value(b);
    lemma_ratio_error(abs(x), 1, 24);
    let r = nearest(abs(x), 24);
    assert(r * 1 * 0x100_0000 == r * 0x100_0000);
}

} // verus!
