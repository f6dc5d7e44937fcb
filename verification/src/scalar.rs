//! Arithmetic on every single-precision pattern, infinities and NaN included.
//!
//! Positions on the screen, zoom and scroll are computed with these
//! operations, so each result is the very number that the processor's own
//! arithmetic gives.

use vstd::prelude::*;
use vstd::arithmetic::power2::*;
use vstd::arithmetic::div_mod::*;
use crate::arith::{sum, plus, product, times, ratio, quotient_of, number, from_whole};
use crate::arith::{lemma_sum, lemma_ratio_pattern, lemma_pattern_exact, lemma_infinity};
use crate::rounding::{wide_power_of_two, lemma_ratio_between, lemma_ratio_monotone, lemma_bit_len_unique, lemma_nearest_bounds};
use crate::single::{Bits, INFINITY, ONE, at_most, negative, is_nan, is_finite, unsigned, magnitude, significand, last_digit, less, less_than, not_a_number};
use crate::single::{value, shift_down, take_apart, lemma_zero, lemma_magnitude_order};

verus! {

/// A pattern that is not a number.
pub const NAN: Bits = 0x7fc0_0000;

pub open spec fn is_infinite(b: Bits) -> bool {
    unsigned(b) == INFINITY
}

pub open spec fn is_zero(b: Bits) -> bool {
    unsigned(b) == 0
}

/// The pattern with the opposite sign.
pub open spec fn negated(b: Bits) -> Bits {
    if b >= 0x8000_0000 {
        (b - 0x8000_0000) as u32
    } else {
        (b + 0x8000_0000) as u32
    }
}

/// Infinity or zero with a sign.
pub open spec fn signed(minus: bool, b: Bits) -> Bits {
    if minus {
        (b + 0x8000_0000) as u32
    } else {
        b
    }
}

/// `a + b`.
pub open spec fn fadd(a: Bits, b: Bits) -> Bits {
    if is_nan(a) || is_nan(b) {
        NAN
    } else if is_infinite(a) {
        if is_infinite(b) && negative(a) != negative(b) {
            NAN
        } else {
            a
        }
    } else if is_infinite(b) {
        b
    } else {
        sum(a, b)
    }
}

/// `a - b`.
pub open spec fn fsub(a: Bits, b: Bits) -> Bits {
    fadd(a, negated(b))
}

/// `a * b`.
pub open spec fn fmul(a: Bits, b: Bits) -> Bits {
    if is_nan(a) || is_nan(b) {
        NAN
    } else if is_infinite(a) || is_infinite(b) {
        if is_zero(a) || is_zero(b) {
            NAN
        } else {
            signed(negative(a) != negative(b), INFINITY)
        }
    } else {
        product(a, b)
    }
}

/// `a / b`.
pub open spec fn fdiv(a: Bits, b: Bits) -> Bits {
    if is_nan(a) || is_nan(b) {
        NAN
    } else if is_infinite(a) {
        if is_infinite(b) {
            NAN
        } else {
            signed(negative(a) != negative(b), INFINITY)
        }
    } else if is_infinite(b) {
        signed(negative(a) != negative(b), 0)
    } else if is_zero(b) {
        if is_zero(a) {
            NAN
        } else {
            signed(negative(a) != negative(b), INFINITY)
        }
    } else {
        ratio(a, b)
    }
}

/// `a.max(b)`: the other one where one is not a number.
pub open spec fn fmax(a: Bits, b: Bits) -> Bits {
    if is_nan(a) {
        b
    } else if less(a, b) {
        b
    } else {
        a
    }
}

/// `a.min(b)`: the other one where one is not a number.
pub open spec fn fmin(a: Bits, b: Bits) -> Bits {
    if is_nan(a) {
        b
    } else if less(b, a) {
        b
    } else {
        a
    }
}

/// `b.abs()`.
pub open spec fn fabs(b: Bits) -> Bits {
    (b % 0x8000_0000) as u32
}

/// `-b`.
pub fn neg(b: Bits) -> (r: Bits)
    ensures
        r == negated(b),
{
    if b >= 0x8000_0000 {
        b - 0x8000_0000
    } else {
        b + 0x8000_0000
    }
}

fn with_sign(minus: bool, b: Bits) -> (r: Bits)
    requires
        b < 0x8000_0000,
    ensures
        r == signed(minus, b),
{
    if minus {
        b + 0x8000_0000
    } else {
        b
    }
}

/// `a + b`.
pub fn add_to(a: Bits, b: Bits) -> (r: Bits)
    ensures
        r == fadd(a, b),
{
    let ua: u32 = a % 0x8000_0000;
    let ub: u32 = b % 0x8000_0000;
    if ua > INFINITY || ub > INFINITY {
        NAN
    } else if ua == INFINITY {
        if ub == INFINITY && (a >= 0x8000_0000) != (b >= 0x8000_0000) {
            NAN
        } else {
            a
        }
    } else if ub == INFINITY {
        b
    } else {
        plus(a, b)
    }
}

/// `a - b`.
pub fn subtract(a: Bits, b: Bits) -> (r: Bits)
    ensures
        r == fsub(a, b),
{
    add_to(a, neg(b))
}

/// `a * b`.
pub fn multiply(a: Bits, b: Bits) -> (r: Bits)
    ensures
        r == fmul(a, b),
{
    let ua: u32 = a % 0x8000_0000;
    let ub: u32 = b % 0x8000_0000;
    let minus: bool = (a >= 0x8000_0000) != (b >= 0x8000_0000);
    if ua > INFINITY || ub > INFINITY {
        NAN
    } else if ua == INFINITY || ub == INFINITY {
        if ua == 0 || ub == 0 {
            NAN
        } else {
            with_sign(minus, INFINITY)
        }
    } else {
        times(a, b)
    }
}

/// `a / b`.
pub fn divide_by(a: Bits, b: Bits) -> (r: Bits)
    ensures
        r == fdiv(a, b),
{
    let ua: u32 = a % 0x8000_0000;
    let ub: u32 = b % 0x8000_0000;
    let minus: bool = (a >= 0x8000_0000) != (b >= 0x8000_0000);
    if ua > INFINITY || ub > INFINITY {
        NAN
    } else if ua == INFINITY {
        if ub == INFINITY {
            NAN
        } else {
            with_sign(minus, INFINITY)
        }
    } else if ub == INFINITY {
        with_sign(minus, 0)
    } else if ub == 0 {
        if ua == 0 {
            NAN
        } else {
            with_sign(minus, INFINITY)
        }
    } else {
        quotient_of(a, b)
    }
}

/// `a.max(b)`.
pub fn larger(a: Bits, b: Bits) -> (r: Bits)
    ensures
        r == fmax(a, b),
{
    if not_a_number(a) || less_than(a, b) {
        b
    } else {
        a
    }
}

/// `a.min(b)`.
pub fn smaller(a: Bits, b: Bits) -> (r: Bits)
    ensures
        r == fmin(a, b),
{
    if not_a_number(a) || less_than(b, a) {
        b
    } else {
        a
    }
}

/// `b.abs()`.
pub fn absolute(b: Bits) -> (r: Bits)
    ensures
        r == fabs(b),
{
    b % 0x8000_0000
}

// ---- Where the results are numbers ------------------------------------------

/// A sum is a number unless it adds infinities of opposite sign.
pub proof fn lemma_add_number(a: Bits, b: Bits)
    requires
        !is_nan(a),
        !is_nan(b),
        is_infinite(a) && is_infinite(b) ==> negative(a) == negative(b),
    ensures
        !is_nan(fadd(a, b)),
{
    if is_finite(a) && is_finite(b) {
        lemma_sum(a, b);
    }
}

/// Zero and one are in order.
pub proof fn lemma_zero_one()
    ensures
        at_most(0, ONE),
{
    lemma_magnitude_order(0, ONE);
}

/// Changing the sign changes nothing else.
pub proof fn lemma_negated(b: Bits)
    ensures
        unsigned(negated(b)) == unsigned(b),
        negative(negated(b)) == !negative(b),
        value(negated(b)) == -value(b),
{
    assert(significand(negated(b)) == significand(b));
    assert(last_digit(negated(b)) == last_digit(b));
}

/// A product of finite numbers is a number.
pub proof fn lemma_mul_number(a: Bits, b: Bits)
    requires
        is_finite(a),
        is_finite(b),
    ensures
        !is_nan(fmul(a, b)),
{
    lemma_pow2_pos(149);
    lemma_ratio_pattern(magnitude(a) * magnitude(b), pow2(149), negative(a) != negative(b));
}

/// A quotient by a finite number other than zero is a number.
pub proof fn lemma_div_number(a: Bits, b: Bits)
    requires
        !is_nan(a),
        is_finite(b),
        !is_zero(b),
    ensures
        !is_nan(fdiv(a, b)),
{
    lemma_zero(b);
    if is_finite(a) {
        lemma_ratio_pattern(magnitude(a) * pow2(149), magnitude(b), negative(a) != negative(b));
    }
}

/// Dividing a finite number by one or more brings it no farther from zero, and
/// not to zero unless the number is the smaller one by far.
pub proof fn lemma_shrinks(a: Bits, b: Bits)
    requires
        is_finite(a),
        is_finite(b),
        magnitude(b) >= pow2(149),
    ensures
        is_finite(fdiv(a, b)),
        magnitude(fdiv(a, b)) <= magnitude(a),
        negative(fdiv(a, b)) == (negative(a) != negative(b)),
        magnitude(a) * pow2(149) >= magnitude(b) ==> !is_zero(fdiv(a, b)),
{
    let num = magnitude(a) * pow2(149);
    let den = magnitude(b);
    lemma_pow2_pos(149);
    lemma_zero(b);
    lemma_ratio_pattern(num, den, negative(a) != negative(b));
    assert(num <= magnitude(a) * den) by (nonlinear_arith)
        requires
            num == magnitude(a) * pow2(149),
            pow2(149) <= den,
    ;
    lemma_ratio_between(num, den, magnitude(a), 24);
    lemma_pattern_exact(a);
    lemma_magnitude_order(a, INFINITY);
    lemma_infinity();
    assert(unsigned(INFINITY) == INFINITY);
    if num >= den {
        assert(1 * den == den);
        lemma_ratio_between(num, den, 1, 24);
        lemma2_to64();
        lemma_bit_len_unique(1, 1);
        lemma_nearest_bounds(1, 24);
        lemma_zero(fdiv(a, b));
    }
}

/// Multiplying a finite number by at most one brings it no farther from zero.
pub proof fn lemma_scaled_down(a: Bits, b: Bits)
    requires
        is_finite(a),
        is_finite(b),
        magnitude(b) <= pow2(149),
    ensures
        is_finite(fmul(a, b)),
        magnitude(fmul(a, b)) <= magnitude(a),
        negative(fmul(a, b)) == (negative(a) != negative(b)),
{
    let num = magnitude(a) * magnitude(b);
    let one = pow2(149);
    lemma_pow2_pos(149);
    lemma_ratio_pattern(num, one, negative(a) != negative(b));
    assert(num <= magnitude(a) * one) by (nonlinear_arith)
        requires
            num == magnitude(a) * magnitude(b),
            magnitude(b) <= one,
    ;
    lemma_ratio_between(num, one, magnitude(a), 24);
    lemma_pattern_exact(a);
    lemma_magnitude_order(a, INFINITY);
    lemma_infinity();
    assert(unsigned(INFINITY) == INFINITY);
}

/// A factor that is not negative keeps order, wherever the products are numbers.
pub proof fn lemma_product_order(a: Bits, b: Bits, g: Bits)
    requires
        at_most(a, b),
        at_most(0, g),
        !is_nan(fmul(a, g)),
        !is_nan(fmul(b, g)),
    ensures
        at_most(fmul(a, g), fmul(b, g)),
{
    lemma_zero(0);
    lemma_zero(g);
    lemma_zero(a);
    lemma_zero(b);
    lemma_product_side(a, g);
    lemma_product_side(b, g);
    lemma_magnitude_order(INFINITY, a);
    lemma_magnitude_order(INFINITY, b);
    assert(unsigned(INFINITY) == INFINITY);
    let one = pow2(149);
    lemma_pow2_pos(149);
    if is_finite(a) && is_finite(b) && is_finite(g) && magnitude(g) > 0 && negative(a) == negative(b) {
        let x = magnitude(a) * magnitude(g);
        let y = magnitude(b) * magnitude(g);
        lemma_ratio_pattern(x, one, negative(a) != negative(g));
        lemma_ratio_pattern(y, one, negative(b) != negative(g));
        lemma_infinity();
        if magnitude(a) <= magnitude(b) {
            assert(x <= y) by (nonlinear_arith)
                requires
                    x == magnitude(a) * magnitude(g),
                    y == magnitude(b) * magnitude(g),
                    magnitude(a) <= magnitude(b),
            ;
            lemma_ratio_monotone(x, y, one, 24);
        } else {
            assert(y <= x) by (nonlinear_arith)
                requires
                    x == magnitude(a) * magnitude(g),
                    y == magnitude(b) * magnitude(g),
                    magnitude(b) <= magnitude(a),
            ;
            lemma_ratio_monotone(y, x, one, 24);
        }
        lemma_magnitude_order(fmul(a, g), INFINITY);
        lemma_magnitude_order(fmul(b, g), INFINITY);
        assert(unsigned(INFINITY) == INFINITY);
    }
}

/// A product with a factor that is not negative lies on the side of the other one.
proof fn lemma_product_side(a: Bits, g: Bits)
    requires
        at_most(0, g),
        !is_nan(fmul(a, g)),
    ensures
        value(a) >= 0 ==> value(fmul(a, g)) >= 0,
        value(a) <= 0 ==> value(fmul(a, g)) <= 0,
        value(g) == 0 ==> value(fmul(a, g)) == 0,
        is_infinite(a) || is_infinite(g) ==> magnitude(fmul(a, g)) == magnitude(INFINITY),
        magnitude(fmul(a, g)) <= magnitude(INFINITY),
{
    lemma_zero(0);
    lemma_zero(g);
    lemma_zero(a);
    let r = fmul(a, g);
    lemma_magnitude_order(INFINITY, r);
    assert(unsigned(INFINITY) == INFINITY);
    if is_finite(a) && is_finite(g) {
        let one = pow2(149);
        lemma_pow2_pos(149);
        let x = magnitude(a) * magnitude(g);
        lemma_ratio_pattern(x, one, negative(a) != negative(g));
        if magnitude(a) == 0 || magnitude(g) == 0 {
            assert(x == 0) by (nonlinear_arith)
                requires
                    magnitude(a) == 0 || magnitude(g) == 0,
                    x == magnitude(a) * magnitude(g),
            ;
            lemma_ratio_between(0, one, 0, 24);
            lemma_nearest_bounds(0, 24);
            assert(0 * one == 0);
            lemma_pow2_pos(277);
        }
    }
}

/// Adding zero keeps the magnitude.
pub proof fn lemma_plus_zero(a: Bits, z: Bits)
    requires
        is_finite(a),
        magnitude(z) == 0,
        is_finite(z),
    ensures
        is_finite(fadd(a, z)),
        magnitude(fadd(a, z)) == magnitude(a),
        magnitude(a) > 0 ==> negative(fadd(a, z)) == negative(a),
{
    lemma_sum(a, z);
    lemma_pattern_exact(a);
    lemma_magnitude_order(a, INFINITY);
    lemma_infinity();
    assert(unsigned(INFINITY) == INFINITY);
}

// ---- To whole numbers -------------------------------------------------------

/// The number without its fraction: zero for negative numbers and for what is
/// not a number, the greatest 64-bit number where it is too large.
pub open spec fn truncated(b: Bits) -> nat {
    if is_nan(b) || negative(b) {
        0
    } else {
        at_most_word(magnitude(b) / pow2(149))
    }
}

pub open spec fn at_most_word(x: nat) -> nat {
    if x > u64::MAX {
        u64::MAX as nat
    } else {
        x
    }
}

/// The nearest whole number, halves away from zero.
pub open spec fn rounded(b: Bits) -> nat {
    if is_nan(b) || negative(b) {
        0
    } else {
        at_most_word((2 * magnitude(b) + pow2(149)) as nat / pow2(150))
    }
}

/// The number without its fraction.
pub fn truncate(b: Bits) -> (r: u64)
    ensures
        r == truncated(b),
{
    if not_a_number(b) || b >= 0x8000_0000 {
        return 0;
    }
    let (q, e): (u64, u32) = take_apart(b);
    shift_down(q, e, 149).0
}

/// The nearest whole number, halves away from zero.
pub fn round(b: Bits) -> (r: u64)
    ensures
        r == rounded(b),
{
    if not_a_number(b) || b >= 0x8000_0000 {
        return 0;
    }
    let (q, e): (u64, u32) = take_apart(b);
    let ghost m = magnitude(b);
    proof {
        lemma2_to64();
        lemma_pow2_pos(149);
        lemma_pow2_pos(148);
        lemma_pow2_unfold(149);
        lemma_pow2_unfold(150);
    }
    if e >= 149 {
        let d: u32 = e - 149;
        proof {
            lemma_pow2_adds(d as nat, 149);
            let w = q * pow2(d as nat);
            assert(m == w * pow2(149)) by (nonlinear_arith)
                requires
                    m == q * pow2(e as nat),
                    pow2(e as nat) == pow2(d as nat) * pow2(149),
                    w == q * pow2(d as nat),
            ;
            lemma_fundamental_div_mod_converse(m as int, pow2(149) as int, w as int, 0);
            assert(2 * m + pow2(149) == w * pow2(150) + pow2(149)) by (nonlinear_arith)
                requires
                    m == w * pow2(149),
                    pow2(150) == 2 * pow2(149),
            ;
            lemma_fundamental_div_mod_converse((2 * m + pow2(149)) as int, pow2(150) as int, w as int, pow2(149) as int);
        }
        return shift_down(q, e, 149).0;
    }
    let h: u64 = shift_down(q, e, 148).0;
    proof {
        let hh = m / pow2(148);
        lemma_fundamental_div_mod(m as int, pow2(148) as int);
        lemma_mod_bound(m as int, pow2(148) as int);
        if e < 148 {
            lemma_pow2_strictly_increases(e as nat, 148);
        }
        assert(m <= 0x100_0000 * pow2(148)) by (nonlinear_arith)
            requires
                m == q * pow2(e as nat),
                q <= 0x100_0000,
                pow2(e as nat) <= pow2(148),
        ;
        lemma_div_is_ordered(m as int, (0x100_0000 * pow2(148)) as int, pow2(148) as int);
        lemma_div_by_multiple(0x100_0000, pow2(148) as int);
        assert(hh <= 0x100_0000);
        let k = (hh + 1) / 2;
        let rest = (hh + 1) % 2;
        let x = 2 * m + pow2(149);
        let tail = rest * pow2(149) + 2 * (m as int % pow2(148) as int);
        assert(x == k * pow2(150) + tail) by (nonlinear_arith)
            requires
                x == 2 * m + pow2(149),
                m == pow2(148) * hh + m as int % pow2(148) as int,
                pow2(149) == 2 * pow2(148),
                pow2(150) == 2 * pow2(149),
                hh + 1 == 2 * k + rest,
                tail == rest * pow2(149) + 2 * (m as int % pow2(148) as int),
        ;
        assert(0 <= tail < pow2(150)) by (nonlinear_arith)
            requires
                tail == rest * pow2(149) + 2 * (m as int % pow2(148) as int),
                0 <= rest <= 1,
                0 <= m as int % pow2(148) as int,
                (m as int % pow2(148) as int) < pow2(148),
                pow2(149) == 2 * pow2(148),
                pow2(150) == 2 * pow2(149),
        ;
        lemma_fundamental_div_mod_converse(x as int, pow2(150) as int, k as int, tail);
    }
    (h + 1) / 2
}

/// The next whole number that is not below.
pub open spec fn raised(b: Bits) -> nat {
    if is_nan(b) || negative(b) {
        0
    } else {
        at_most_word((magnitude(b) + pow2(149) - 1) as nat / pow2(149))
    }
}

/// The next whole number that is not below.
pub fn ceiling(b: Bits) -> (r: u64)
    ensures
        r == raised(b),
{
    if not_a_number(b) || b >= 0x8000_0000 {
        return 0;
    }
    let (q, e): (u64, u32) = take_apart(b);
    let (w, exact): (u64, bool) = shift_down(q, e, 149);
    proof {
        let m = magnitude(b);
        let u = pow2(149);
        lemma_pow2_pos(149);
        lemma_fundamental_div_mod(m as int, u as int);
        lemma_mod_bound(m as int, u as int);
        let k = m / u;
        let rest = m % u;
        if rest == 0 {
            assert(m + u - 1 == k * u + (u - 1)) by (nonlinear_arith)
                requires
                    m == u * k + rest,
                    rest == 0,
            ;
            lemma_fundamental_div_mod_converse(m + u - 1, u as int, k as int, u - 1);
        } else {
            assert(m + u - 1 == (k + 1) * u + (rest - 1)) by (nonlinear_arith)
                requires
                    m == u * k + rest,
            ;
            lemma_fundamental_div_mod_converse(m + u - 1, u as int, (k + 1) as int, rest - 1);
        }
    }
    if exact || w == u64::MAX {
        w
    } else {
        w + 1
    }
}

/// The whole number of `1 / k` nearest to a magnitude, halves to the even one.
pub open spec fn parts(b: Bits, k: nat) -> nat {
    let num = magnitude(b) * k;
    let q = num / pow2(149);
    let r = num % pow2(149);
    if 2 * r > pow2(149) || (2 * r == pow2(149) && q % 2 == 1) {
        q + 1
    } else {
        q
    }
}

/// The whole number of `1 / k` nearest to a magnitude, halves to the even one.
/// The magnitude is below 2^90.
pub fn nearest_parts(b: Bits, k: u32) -> (r: u128)
    requires
        unsigned(b) < 0x6c80_0000,
    ensures
        r == parts(b, k as nat),
{
    let (q, e): (u64, u32) = take_apart(b);
    let ghost m = magnitude(b);
    assert(e <= 215) by {
        assert(unsigned(b) / 0x80_0000 < 217);
    }
    assert(q * k <= 0xff_ffff * 0x1_0000_0000) by (nonlinear_arith)
        requires
            q <= 0xff_ffff,
            k <= 0x1_0000_0000,
    ;
    let num: u128 = q as u128 * k as u128;
    proof {
        lemma2_to64();
        lemma2_to64_rest();
        lemma_pow2_pos(e as nat);
        lemma_pow2_pos(149);
        assert(m * k == num * pow2(e as nat)) by (nonlinear_arith)
            requires
                m == q * pow2(e as nat),
                num == q * k,
        ;
    }
    if e >= 149 {
        let d: u32 = e - 149;
        let p: u128 = wide_power_of_two(d);
        proof {
            lemma_pow2_adds(d as nat, 149);
            lemma_pow2_adds(60, 7);
            if d < 67 {
                lemma_pow2_strictly_increases(d as nat, 67);
            }
            assert(num * p <= (0xff_ffff * 0x1_0000_0000) * (0x1000_0000_0000_0000 * 128)) by (nonlinear_arith)
                requires
                    num <= 0xff_ffff * 0x1_0000_0000,
                    p <= 0x1000_0000_0000_0000 * 128,
            ;
            let w = num * p;
            assert(num * pow2(e as nat) == w * pow2(149) + 0) by (nonlinear_arith)
                requires
                    pow2(e as nat) == pow2(d as nat) * pow2(149),
                    w == num * p,
                    p == pow2(d as nat),
            ;
            lemma_fundamental_div_mod_converse((m * k) as int, pow2(149) as int, w as int, 0);
        }
        return num * p;
    }
    let s: u32 = 149 - e;
    proof {
        lemma_pow2_adds(s as nat, e as nat);
        lemma_pow2_pos(s as nat);
        let u = pow2(s as nat);
        let c = pow2(e as nat);
        let a = num as nat / u;
        let r0 = num as nat % u;
        lemma_fundamental_div_mod(num as int, u as int);
        lemma_mod_bound(num as int, u as int);
        assert(m * k == a * pow2(149) + r0 * c) by (nonlinear_arith)
            requires
                m * k == num * c,
                num == u * a + r0,
                pow2(149) == u * c,
        ;
        assert(0 <= r0 * c < pow2(149)) by (nonlinear_arith)
            requires
                0 <= r0 < u,
                c > 0,
                pow2(149) == u * c,
        ;
        lemma_fundamental_div_mod_converse((m * k) as int, pow2(149) as int, a as int, (r0 * c) as int);
        assert((2 * (r0 * c) > pow2(149)) == (2 * r0 > u)) by (nonlinear_arith)
            requires
                c > 0,
                pow2(149) == u * c,
        ;
        assert((2 * (r0 * c) == pow2(149)) == (2 * r0 == u)) by (nonlinear_arith)
            requires
                c > 0,
                pow2(149) == u * c,
        ;
    }
    if s >= 60 {
        proof {
            if s > 60 {
                lemma_pow2_strictly_increases(60, s as nat);
            }
            lemma_small_mod(num as nat, pow2(s as nat));
            lemma_basic_div(num as int, pow2(s as nat) as int);
        }
        return 0;
    }
    let u: u128 = wide_power_of_two(s);
    let a: u128 = num / u;
    let r: u128 = num % u;
    assert(u <= 0x1000_0000_0000_0000) by {
        lemma_pow2_strictly_increases(s as nat, 60);
    }
    if 2 * r > u || (2 * r == u && a % 2 == 1) {
        a + 1
    } else {
        a
    }
}

// ---- The fraction -----------------------------------------------------------

/// The next whole number that is not above.
pub open spec fn floored(b: Bits) -> Bits {
    if unsigned(b) >= 0x4b00_0000 {
        b
    } else if negative(b) {
        negated(number(raised(negated(b))))
    } else {
        number(truncated(b))
    }
}

/// The next whole number that is not above.
pub fn floor(b: Bits) -> (r: Bits)
    ensures
        r == floored(b),
{
    if b % 0x8000_0000 >= 0x4b00_0000 {
        b
    } else if b >= 0x8000_0000 {
        neg(from_whole(ceiling(neg(b))))
    } else {
        from_whole(truncate(b))
    }
}

/// What a number exceeds the next whole number below it by.
pub open spec fn fraction(b: Bits) -> Bits {
    fsub(b, floored(b))
}

/// What a number exceeds the next whole number below it by.
pub fn fraction_of(b: Bits) -> (r: Bits)
    ensures
        r == fraction(b),
{
    subtract(b, floor(b))
}

} // verus!
