//! Sums and quotients of single-precision patterns, rounded to nearest even.

use vstd::prelude::*;
use vstd::arithmetic::power2::*;
use vstd::arithmetic::div_mod::*;
use vstd::arithmetic::mul::*;
use crate::rounding::{nearest, nearest_ratio, bit_len, spacing, power_of_two, round_to, round_ratio, lemma_ratio_bounds};
use crate::rounding::{lemma_bit_len, lemma_bit_len_unique, lemma_nearest_scaled, lemma_nearest_bounds, lemma_ratio_scaled, lemma_nearest_monotone};
use crate::single::{Bits, INFINITY, magnitude, value, negative, is_finite, is_nan, unsigned, significand, last_digit};
use crate::single::{take_apart, encode, lemma_magnitude_order, lemma_zero};

verus! {

pub open spec fn abs(x: int) -> nat {
    if x < 0 {
        (-x) as nat
    } else {
        x as nat
    }
}

/// A pattern stands for `x`, a multiple of 2^-149, rounded to single precision:
/// infinite where the rounded magnitude reaches 2^128, and with the sign of
/// `x` unless it is zero.
pub open spec fn rounds_to(b: Bits, x: int) -> bool {
    let m = nearest(abs(x), 24);
    &&& if m >= pow2(277) {
        unsigned(b) == INFINITY
    } else {
        unsigned(b) < INFINITY && magnitude(b) == m
    }
    &&& x != 0 ==> negative(b) == (x < 0)
}

/// The pattern with that sign and that magnitude, a multiple of 2^-149 that
/// single precision holds; infinite from 2^128 on.
pub open spec fn pattern(minus: bool, m: nat) -> Bits {
    choose|b: Bits| is_pattern(b, minus, m)
}

pub open spec fn is_pattern(b: Bits, minus: bool, m: nat) -> bool {
    &&& negative(b) == minus
    &&& if m >= pow2(277) {
        unsigned(b) == INFINITY
    } else {
        unsigned(b) < INFINITY && magnitude(b) == m
    }
}

/// `a + b` for finite numbers. A sum of zero is negative only where both
/// numbers are.
pub open spec fn sum(a: Bits, b: Bits) -> Bits {
    let x = value(a) + value(b);
    pattern(
        if x == 0 {
            negative(a) && negative(b)
        } else {
            x < 0
        },
        nearest(abs(x), 24),
    )
}

/// Sign and magnitude fix the pattern.
pub proof fn lemma_pattern_unique(b: Bits, minus: bool, m: nat)
    requires
        is_pattern(b, minus, m),
    ensures
        pattern(minus, m) == b,
{
    let c = pattern(minus, m);
    assert(is_pattern(c, minus, m));
    lemma_magnitude_order(b, c);
}

/// The pattern of a 24-bit significand and an exponent.
proof fn lemma_pattern_of(q: nat, k: nat)
    requires
        0x80_0000 <= q <= 0x100_0000,
        q * pow2(k) < pow2(277),
    ensures
        k * 0x80_0000 + q < INFINITY,
        magnitude((k * 0x80_0000 + q) as u32) == q * pow2(k),
{
    lemma2_to64();
    lemma_pow2_adds(23, 254);
    lemma_pow2_adds(24, 253);
    lemma_pow2_pos(k);
    if k >= 254 {
        if k > 254 {
            lemma_pow2_strictly_increases(254, k);
        }
        assert(q * pow2(k) >= pow2(23) * pow2(254)) by (nonlinear_arith)
            requires
                q >= pow2(23),
                pow2(k) >= pow2(254),
        ;
    }
    let b = (k * 0x80_0000 + q) as u32;
    if q < 0x100_0000 {
        assert(unsigned(b) / 0x80_0000 == k + 1);
        assert(significand(b) == q);
    } else {
        lemma_pow2_unfold(k + 1);
        assert(unsigned(b) / 0x80_0000 == k + 2);
        assert(significand(b) == 0x80_0000);
        assert(0x80_0000 * (2 * pow2(k)) == 0x100_0000 * pow2(k)) by (nonlinear_arith);
    }
}

/// Every rounded number has a pattern.
pub proof fn lemma_pattern_exists(x: nat, minus: bool)
    ensures
        is_pattern(pattern(minus, nearest(x, 24)), minus, nearest(x, 24)),
{
    lemma2_to64();
    let m = nearest(x, 24);
    lemma_nearest_bounds(x, 24);
    lemma_bit_len(x);
    let plain: u32 = if m >= pow2(277) {
        INFINITY
    } else if bit_len(x) <= 24 {
        if bit_len(x) < 24 {
            lemma_pow2_strictly_increases(bit_len(x), 24);
        }
        assert(unsigned(x as u32) == x);
        assert(significand(x as u32) * 1 == x);
        x as u32
    } else {
        let k = (bit_len(x) - 24) as nat;
        let q = if m == (x / pow2(k)) * pow2(k) {
            x / pow2(k)
        } else {
            x / pow2(k) + 1
        };
        lemma_pattern_of(q, k);
        (k * 0x80_0000 + q) as u32
    };
    let b: u32 = if minus {
        (plain + 0x8000_0000) as u32
    } else {
        plain
    };
    assert(unsigned(b) == plain);
    assert(significand(b) == significand(plain) && last_digit(b) == last_digit(plain)) by {
        assert(unsigned(plain) == plain);
    }
    assert(is_pattern(b, minus, m));
}

/// Every rounded ratio has a pattern.
pub proof fn lemma_ratio_pattern(num: nat, den: nat, minus: bool)
    requires
        den > 0,
    ensures
        is_pattern(
            pattern(minus, nearest_ratio(num, den, 24)),
            minus,
            nearest_ratio(num, den, 24),
        ),
{
    lemma2_to64();
    let m = nearest_ratio(num, den, 24);
    let x = num / den;
    lemma_ratio_bounds(num, den, 24);
    lemma_bit_len(x);
    let u = spacing(x, 24);
    let q0 = num / (den * u);
    let q = if m == q0 * u {
        q0
    } else {
        q0 + 1
    };
    let plain: u32 = if m >= pow2(277) {
        INFINITY
    } else if bit_len(x) <= 24 {
        assert(m == q);
        if q < 0x80_0000 {
            assert(unsigned(q as u32) == q);
            assert(significand(q as u32) * 1 == q);
            q as u32
        } else {
            lemma_pattern_of(q, 0);
            assert(q * pow2(0) == q);
            q as u32
        }
    } else {
        let k = (bit_len(x) - 24) as nat;
        lemma_pattern_of(q, k);
        (k * 0x80_0000 + q) as u32
    };
    let b: u32 = if minus {
        (plain + 0x8000_0000) as u32
    } else {
        plain
    };
    assert(unsigned(b) == plain);
    assert(significand(b) == significand(plain) && last_digit(b) == last_digit(plain)) by {
        assert(unsigned(plain) == plain);
    }
    assert(is_pattern(b, minus, m));
}

/// A sum of finite numbers is the rounding of the exact sum.
pub proof fn lemma_sum(a: Bits, b: Bits)
    ensures
        rounds_to(sum(a, b), value(a) + value(b)),
        value(a) + value(b) == 0 ==> negative(sum(a, b)) == (negative(a) && negative(b)),
        value(a) + value(b) != 0 ==> magnitude(sum(a, b)) > 0,
{
    let x = value(a) + value(b);
    lemma_pattern_exists(abs(x), if x == 0 { negative(a) && negative(b) } else { x < 0 });
    if x != 0 {
        lemma2_to64();
        lemma_nearest_monotone(1, abs(x), 24);
        lemma_bit_len_unique(1, 1);
        lemma_nearest_bounds(1, 24);
        lemma_zero(sum(a, b));
        lemma_pow2_pos(277);
    }
}

/// Adding a non-negative number never lowers a non-negative one.
pub proof fn lemma_sum_up(a: Bits, g: Bits)
    requires
        a < INFINITY,
        g < INFINITY,
    ensures
        value(a) <= value(sum(a, g)),
        !is_nan(sum(a, g)),
        !negative(sum(a, g)),
{
    lemma_sum(a, g);
    lemma_pattern_exact(a);
    lemma_infinity();
    lemma_magnitude_order(a, INFINITY);
    assert(unsigned(INFINITY) == INFINITY);
    lemma_nearest_monotone(magnitude(a), abs(value(a) + value(g)), 24);
    let r = sum(a, g);
    lemma_magnitude_order(r, INFINITY);
    if value(a) + value(g) == 0 {
        lemma_zero(a);
    }
}

/// Adding a negative number never raises a non-negative one.
pub proof fn lemma_sum_down(a: Bits, g: Bits)
    requires
        a < INFINITY,
        negative(g),
        is_finite(g),
    ensures
        value(sum(a, g)) <= value(a),
        !is_nan(sum(a, g)),
        negative(sum(a, g)) ==> value(sum(a, g)) < 0,
{
    lemma_sum(a, g);
    lemma_pattern_exact(a);
    lemma_infinity();
    lemma_magnitude_order(a, INFINITY);
    assert(unsigned(INFINITY) == INFINITY);
    let x = value(a) + value(g);
    if x >= 0 {
        lemma_nearest_monotone(abs(x), magnitude(a), 24);
    }
    if x == 0 {
        lemma_nearest_bounds(0, 24);
        assert(bit_len(0) == 0);
    }
}

/// A number far smaller than the last digit of another does not change it.
proof fn lemma_absorbed(m: nat, e: nat, y: nat, up: bool)
    requires
        0x80_0000 <= m < 0x100_0000,
        e >= 2,
        0 <= y < pow2((e - 2) as nat),
    ensures
        up ==> nearest(m * pow2(e) + y, 24) == m * pow2(e),
        !up ==> m * pow2(e) >= y && nearest((m * pow2(e) - y) as nat, 24) == m * pow2(e),
{
    lemma2_to64();
    let u = pow2(e);
    let h = pow2((e - 1) as nat);
    let q4 = pow2((e - 2) as nat);
    lemma_pow2_unfold(e);
    lemma_pow2_unfold((e - 1) as nat);
    lemma_pow2_pos((e - 2) as nat);
    lemma_pow2_adds(23, e);
    lemma_pow2_adds(24, e);
    let x = m * u;
    assert(pow2(23) * u <= x && x + u <= pow2(24) * u) by (nonlinear_arith)
        requires
            x == m * u,
            pow2(23) <= m,
            m + 1 <= pow2(24),
    ;
    assert(1 * u == u && 1 * h == h);
    if up {
        let s = x + y;
        assert(s / 1 == s);
        lemma_bit_len_unique(s, 24 + e);
        lemma_fundamental_div_mod_converse(s as int, u as int, m as int, y as int);
    } else if y == 0 {
        assert(x / 1 == x);
        lemma_bit_len_unique(x, 24 + e);
        lemma_fundamental_div_mod_converse(x as int, u as int, m as int, 0);
    } else if m > 0x80_0000 {
        let s = (x - y) as nat;
        assert(s / 1 == s);
        assert(x >= pow2(23) * u + u) by (nonlinear_arith)
            requires
                x == m * u,
                m >= pow2(23) + 1,
        ;
        lemma_bit_len_unique(s, 24 + e);
        assert(s == (m - 1) * u + (u - y)) by (nonlinear_arith)
            requires
                s == x - y,
                x == m * u,
        ;
        lemma_fundamental_div_mod_converse(s as int, u as int, m - 1, u - y);
        assert((m - 1 + 1) * u == m * u);
    } else {
        // just below a power of two the digits are half as wide
        let s = (x - y) as nat;
        assert(s / 1 == s);
        lemma_pow2_adds(22, e);
        lemma_pow2_unfold((23 + e) as nat);
        assert(x == pow2((23 + e) as nat));
        assert(s >= pow2((22 + e) as nat)) by {
            assert(pow2(22) * u >= u) by (nonlinear_arith)
                requires
                    pow2(22) >= 1,
            ;
        }
        lemma_bit_len_unique(s, 23 + e);
        assert(x == 0x100_0000 * h) by (nonlinear_arith)
            requires
                x == 0x80_0000 * u,
                u == 2 * h,
        ;
        assert(s == 0xff_ffff * h + (h - y));
        lemma_fundamental_div_mod_converse(s as int, h as int, 0xff_ffff, h - y);
        assert((0xff_ffff + 1) * h == x);
    }
}

/// `q * 2^e` as a pattern, infinite where it is too large.
fn pack(q: u64, e: u32) -> (b: Bits)
    requires
        q <= 0x100_0000,
        e > 0 ==> q >= 0x80_0000,
    ensures
        b <= INFINITY,
        q * pow2(e as nat) >= pow2(277) ==> b == INFINITY,
        q * pow2(e as nat) < pow2(277) ==> b < INFINITY && magnitude(b) == q * pow2(e as nat),
{
    proof {
        lemma2_to64();
        lemma_pow2_adds(23, 254);
        lemma_pow2_adds(24, 253);
        lemma_pow2_pos(e as nat);
        if e >= 254 {
            if e > 254 {
                lemma_pow2_strictly_increases(254, e as nat);
            }
            assert(q * pow2(e as nat) >= pow2(23) * pow2(254)) by (nonlinear_arith)
                requires
                    q >= pow2(23),
                    pow2(e as nat) >= pow2(254),
            ;
        } else {
            if e < 253 {
                lemma_pow2_strictly_increases(e as nat, 253);
            }
            if e < 253 || q < 0x100_0000 {
                assert(q * pow2(e as nat) < pow2(24) * pow2(253)) by (nonlinear_arith)
                    requires
                        q <= pow2(24),
                        pow2(e as nat) <= pow2(253),
                        q < pow2(24) || pow2(e as nat) < pow2(253),
                        pow2(e as nat) > 0,
                        pow2(24) > 0,
                ;
            }
        }
    }
    if e >= 254 || (e == 253 && q == 0x100_0000) {
        INFINITY
    } else {
        encode(q, e)
    }
}

/// `a + b` for finite numbers.
pub fn plus(a: Bits, b: Bits) -> (r: Bits)
    requires
        is_finite(a),
        is_finite(b),
    ensures
        r == sum(a, b),
        rounds_to(r, value(a) + value(b)),
{
    let ua: u32 = a % 0x8000_0000;
    let ub: u32 = b % 0x8000_0000;
    let (x, y): (u32, u32) = if ua >= ub {
        (a, b)
    } else {
        (b, a)
    };
    let same: bool = (a < 0x8000_0000) == (b < 0x8000_0000);
    let minus: bool = x >= 0x8000_0000;
    let (mx, ex): (u64, u32) = take_apart(x);
    let (my, ey): (u64, u32) = take_apart(y);
    let ghost gx = magnitude(x);
    let ghost gy = magnitude(y);
    let ghost sum = value(a) + value(b);
    proof {
        lemma_magnitude_order(a, b);
        lemma2_to64();
        lemma2_to64_rest();
        lemma_pow2_pos(ey as nat);
        assert(abs(sum) == if same { gx + gy } else { (gx - gy) as nat });
        assert(sum != 0 ==> (sum < 0) == minus);
        assert(ey <= ex);
    }
    let d: u32 = ex - ey;
    if d > 60 {
        proof {
            lemma_pow2_adds(24, ey as nat);
            let lim = pow2((ex - 2) as nat);
            assert(gy < pow2(24) * pow2(ey as nat)) by (nonlinear_arith)
                requires
                    gy == my * pow2(ey as nat),
                    my < pow2(24),
                    pow2(ey as nat) > 0,
            ;
            lemma_pow2_strictly_increases((24 + ey) as nat, (ex - 2) as nat);
            assert(mx >= 0x80_0000);
            lemma_absorbed(mx as nat, ex as nat, gy, same);
            assert(gx < pow2(277)) by {
                lemma_magnitude_order(x, INFINITY);
                lemma_infinity();
            }
            lemma_pow2_pos(ex as nat);
            assert(gx > 0) by {
                lemma_zero(x);
            }
            lemma_pattern_unique(x, sum < 0, nearest(abs(sum), 24));
        }
        return x;
    }
    proof {
        lemma_pow2_adds(d as nat, ey as nat);
        if d < 60 {
            lemma_pow2_strictly_increases(d as nat, 60);
        }
        assert(mx * pow2(d as nat) <= 0x100_0000 * 0x1000_0000_0000_0000) by (nonlinear_arith)
            requires
                mx <= 0x100_0000,
                pow2(d as nat) <= 0x1000_0000_0000_0000,
        ;
        assert(gx == (mx * pow2(d as nat)) * pow2(ey as nat)) by (nonlinear_arith)
            requires
                gx == mx * pow2(ex as nat),
                pow2(ex as nat) == pow2(d as nat) * pow2(ey as nat),
        ;
        if !same {
            assert(mx * pow2(d as nat) >= my) by (nonlinear_arith)
                requires
                    (mx * pow2(d as nat)) * pow2(ey as nat) >= my * pow2(ey as nat),
                    pow2(ey as nat) > 0,
            ;
        }
    }
    let wx: u128 = mx as u128 * power_of_two(d) as u128;
    let w: u128 = if same {
        wx + my as u128
    } else {
        wx - my as u128
    };
    let (q, k): (u64, u32) = round_to(w, 24);
    proof {
        assert(abs(sum) == w as nat * pow2(ey as nat)) by (nonlinear_arith)
            requires
                abs(sum) == if same { gx + gy } else { (gx - gy) as nat },
                gx == wx * pow2(ey as nat),
                gy == my * pow2(ey as nat),
                gx >= gy,
                w == if same { wx + my } else { wx - my },
        ;
        lemma_nearest_scaled(w as nat, ey as nat, 24);
        lemma_pow2_adds(k as nat, ey as nat);
        assert((q * pow2(k as nat)) * pow2(ey as nat) == q * (pow2(k as nat) * pow2(ey as nat)))
            by (nonlinear_arith);
    }
    // a quotient without leading bit has its spacing at one
    let (q2, e2): (u64, u32) = settle(q, k + ey);
    let m: u32 = pack(q2, e2);
    let below: bool = if w == 0 {
        a >= 0x8000_0000 && b >= 0x8000_0000
    } else {
        minus
    };
    proof {
        assert((w == 0) == (sum == 0)) by (nonlinear_arith)
            requires
                abs(sum) == w as nat * pow2(ey as nat),
                pow2(ey as nat) > 0,
                (abs(sum) == 0) == (sum == 0),
        ;
    }
    let r: u32 = if below {
        m + 0x8000_0000
    } else {
        m
    };
    proof {
        lemma_pattern_unique(
            r,
            if sum == 0 {
                negative(a) && negative(b)
            } else {
                sum < 0
            },
            nearest(abs(sum), 24),
        );
    }
    r
}

pub proof fn lemma_infinity()
    ensures
        magnitude(INFINITY) == pow2(277),
{
    lemma2_to64();
    lemma_pow2_adds(23, 254);
    assert(unsigned(INFINITY) == INFINITY);
    assert(significand(INFINITY) == 0x80_0000);
    assert(last_digit(INFINITY) == 254);
}

/// Moves a quotient up until its leading bit is set or its exponent is used up.
fn settle(q: u64, e: u32) -> (r: (u64, u32))
    requires
        q <= 0x100_0000,
    ensures
        r.0 * pow2(r.1 as nat) == q * pow2(e as nat),
        r.0 <= 0x100_0000,
        r.1 > 0 ==> r.0 >= 0x80_0000,
        r.1 <= e,
{
    let mut m: u64 = q;
    let mut k: u32 = e;
    while m < 0x80_0000 && k > 0
        invariant
            m <= 0x100_0000,
            k <= e,
            m * pow2(k as nat) == q * pow2(e as nat),
        decreases k,
    {
        proof {
            lemma_pow2_unfold(k as nat);
            assert(m * (2 * pow2((k - 1) as nat)) == (2 * m) * pow2((k - 1) as nat)) by (nonlinear_arith);
        }
        m = 2 * m;
        k = k - 1;
    }
    (m, k)
}

/// A finite pattern is its own rounding.
pub proof fn lemma_pattern_exact(a: Bits)
    ensures
        nearest(magnitude(a), 24) == magnitude(a),
{
    lemma2_to64();
    let s = significand(a);
    lemma_bit_len(s);
    if bit_len(s) > 24 {
        if bit_len(s) - 1 > 24 {
            lemma_pow2_strictly_increases(24, (bit_len(s) - 1) as nat);
        }
    }
    lemma_nearest_bounds(s, 24);
    lemma_nearest_scaled(s, last_digit(a), 24);
}

// ---- Products and quotients -------------------------------------------------

/// `a * b` for finite numbers.
pub open spec fn product(a: Bits, b: Bits) -> Bits {
    pattern(
        negative(a) != negative(b),
        nearest_ratio(magnitude(a) * magnitude(b), pow2(149), 24),
    )
}

/// `a / b` for finite numbers, `b` not zero.
pub open spec fn ratio(a: Bits, b: Bits) -> Bits {
    pattern(
        negative(a) != negative(b),
        nearest_ratio(magnitude(a) * pow2(149), magnitude(b), 24),
    )
}

/// A ratio that is less than one half rounds to zero.
proof fn lemma_vanishes(num: nat, den: nat)
    requires
        2 * num < den,
    ensures
        nearest_ratio(num, den, 24) == 0,
{
    lemma_basic_div(num as int, den as int);
    assert(num / den == 0);
    assert(bit_len(0) == 0);
    assert(spacing(num / den, 24) == 1);
    assert(den * 1 == den);
    lemma_small_mod(num, den);
    assert(0 * 1 == 0);
}

/// Puts a sign on a magnitude.
fn signed_pattern(q: u64, e: u32, minus: bool) -> (r: Bits)
    requires
        q <= 0x100_0000,
    ensures
        r == pattern(minus, (q * pow2(e as nat)) as nat),
{
    let (q2, e2): (u64, u32) = settle(q, e);
    let m: u32 = pack(q2, e2);
    let r: u32 = if minus {
        m + 0x8000_0000
    } else {
        m
    };
    proof {
        lemma_pattern_unique(r, minus, (q * pow2(e as nat)) as nat);
    }
    r
}

/// `a * b`.
pub fn times(a: Bits, b: Bits) -> (r: Bits)
    requires
        is_finite(a),
        is_finite(b),
    ensures
        r == product(a, b),
{
    let minus: bool = (a >= 0x8000_0000) != (b >= 0x8000_0000);
    let (sa, ea): (u64, u32) = take_apart(a);
    let (sb, eb): (u64, u32) = take_apart(b);
    let ghost exact = magnitude(a) * magnitude(b);
    proof {
        lemma2_to64();
        lemma2_to64_rest();
        assert(sa * sb < 0x100_0000 * 0x100_0000) by (nonlinear_arith)
            requires
                sa < 0x100_0000,
                sb < 0x100_0000,
        ;
        lemma_pow2_adds(ea as nat, eb as nat);
        lemma_pow2_pos((ea + eb) as nat);
    }
    let m: u64 = sa * sb;
    let e: u32 = ea + eb;
    proof {
        assert(exact == m * pow2(e as nat)) by (nonlinear_arith)
            requires
                exact == (sa * pow2(ea as nat)) * (sb * pow2(eb as nat)),
                m == sa * sb,
                pow2(e as nat) == pow2(ea as nat) * pow2(eb as nat),
        ;
    }
    if e >= 149 {
        let (q, k): (u64, u32) = round_to(m as u128, 24);
        let d: u32 = e - 149;
        proof {
            let c = pow2(149);
            lemma_pow2_pos(149);
            lemma_pow2_adds(d as nat, 149);
            assert(exact == (m as nat * pow2(d as nat)) * c) by (nonlinear_arith)
                requires
                    exact == m * pow2(e as nat),
                    pow2(e as nat) == pow2(d as nat) * c,
            ;
            assert(1 * c == c);
            crate::rounding::lemma_ratio_cancel(m as nat * pow2(d as nat), 1, c, 24);
            lemma_nearest_scaled(m as nat, d as nat, 24);
            lemma_pow2_adds(k as nat, d as nat);
            assert((q * pow2(k as nat)) * pow2(d as nat) == q * (pow2(k as nat) * pow2(d as nat)))
                by (nonlinear_arith);
        }
        return signed_pattern(q, k + d, minus);
    }
    let s: u32 = 149 - e;
    proof {
        lemma_pow2_adds(s as nat, e as nat);
        lemma_pow2_pos(s as nat);
        crate::rounding::lemma_ratio_cancel(m as nat, pow2(s as nat), pow2(e as nat), 24);
    }
    if s >= 64 {
        proof {
            if s > 64 {
                lemma_pow2_strictly_increases(64, s as nat);
            }
            lemma_vanishes(m as nat, pow2(s as nat));
            assert(0 * pow2(0) == 0);
        }
        return signed_pattern(0, 0, minus);
    }
    let (q, k): (u64, u32) = round_ratio(m as u128, power_of_two(s) as u128, 24);
    signed_pattern(q, k, minus)
}

/// `a / b`.
pub fn quotient_of(a: Bits, b: Bits) -> (r: Bits)
    requires
        is_finite(a),
        is_finite(b),
        unsigned(b) != 0,
    ensures
        r == ratio(a, b),
{
    let minus: bool = (a >= 0x8000_0000) != (b >= 0x8000_0000);
    let (sa, ea): (u64, u32) = take_apart(a);
    let (sb, eb): (u64, u32) = take_apart(b);
    proof {
        lemma2_to64();
        lemma2_to64_rest();
        lemma_zero(b);
        lemma_pow2_pos(eb as nat);
        lemma_pow2_pos(ea as nat);
        if sb == 0 {
            assert(0 * pow2(eb as nat) == 0);
        }
    }
    let ghost num0 = magnitude(a) * pow2(149);
    let ghost den0 = magnitude(b);
    if sa == 0 {
        proof {
            assert(magnitude(a) == 0) by {
                assert(0 * pow2(ea as nat) == 0);
            }
            assert(0 * pow2(149) == 0);
            lemma_vanishes(0, den0);
            assert(0 * pow2(0) == 0);
        }
        return signed_pattern(0, 0, minus);
    }
    assert(sa * 0x1000_0000_0000_0000 < u128::MAX) by (nonlinear_arith)
        requires
            sa <= 0x100_0000,
    ;
    let num: u128 = sa as u128 * 0x1000_0000_0000_0000u128;
    proof {
        lemma_pow2_adds(60, 89);
        lemma_pow2_adds(89, ea as nat);
        assert(num0 == num as nat * pow2((ea + 89) as nat)) by (nonlinear_arith)
            requires
                num0 == (sa * pow2(ea as nat)) * pow2(149),
                pow2(149) == 0x1000_0000_0000_0000 * pow2(89),
                num == sa * 0x1000_0000_0000_0000,
                pow2((ea + 89) as nat) == pow2(89) * pow2(ea as nat),
        ;
        assert(0x1000_0000_0000_0000 <= num <= 0x10_0000_0000_0000_0000_0000) by (nonlinear_arith)
            requires
                num == sa * 0x1000_0000_0000_0000,
                1 <= sa <= 0x100_0000,
        ;
    }
    if ea + 89 >= eb {
        let d: u32 = ea + 89 - eb;
        let (q, k): (u64, u32) = round_ratio(num, sb as u128, 24);
        proof {
            let c = pow2(eb as nat);
            lemma_pow2_adds(d as nat, eb as nat);
            assert(num0 == (num as nat * pow2(d as nat)) * c) by (nonlinear_arith)
                requires
                    num0 == num * pow2((ea + 89) as nat),
                    pow2((ea + 89) as nat) == pow2(d as nat) * c,
            ;
            crate::rounding::lemma_ratio_cancel(num as nat * pow2(d as nat), sb as nat, c, 24);
            lemma_normal_quotient(num as nat, sb as nat);
            lemma_ratio_scaled(num as nat, sb as nat, d as nat, 24);
            lemma_pow2_adds(k as nat, d as nat);
            assert((q * pow2(k as nat)) * pow2(d as nat) == q * (pow2(k as nat) * pow2(d as nat)))
                by (nonlinear_arith);
        }
        return signed_pattern(q, k + d, minus);
    }
    let t: u32 = eb - (ea + 89);
    proof {
        let c = pow2((ea + 89) as nat);
        lemma_pow2_pos((ea + 89) as nat);
        lemma_pow2_adds(t as nat, (ea + 89) as nat);
        assert(den0 == (sb as nat * pow2(t as nat)) * c) by (nonlinear_arith)
            requires
                den0 == sb * pow2(eb as nat),
                pow2(eb as nat) == pow2(t as nat) * c,
        ;
        lemma_pow2_pos(t as nat);
        assert(sb * pow2(t as nat) > 0) by (nonlinear_arith)
            requires
                sb > 0,
                pow2(t as nat) > 0,
        ;
        crate::rounding::lemma_ratio_cancel(num as nat, sb as nat * pow2(t as nat), c, 24);
    }
    if t >= 90 {
        proof {
            lemma_pow2_adds(30, 60);
            assert(pow2(90) == 0x4000_0000 * 0x1000_0000_0000_0000);
            if t > 90 {
                lemma_pow2_strictly_increases(90, t as nat);
            }
            assert(sb * pow2(t as nat) >= pow2(90)) by (nonlinear_arith)
                requires
                    sb >= 1,
                    pow2(t as nat) >= pow2(90),
            ;
            lemma_vanishes(num as nat, sb as nat * pow2(t as nat));
            assert(0 * pow2(0) == 0);
        }
        return signed_pattern(0, 0, minus);
    }
    let p: u128 = crate::rounding::wide_power_of_two(t);
    proof {
        lemma_pow2_adds(30, 60);
        if t < 90 {
            lemma_pow2_strictly_increases(t as nat, 90);
        }
        assert(sb * p <= 0x100_0000 * (0x4000_0000 * 0x1000_0000_0000_0000)) by (nonlinear_arith)
            requires
                sb <= 0x100_0000,
                p <= 0x4000_0000 * 0x1000_0000_0000_0000,
        ;
    }
    let (q, k): (u64, u32) = round_ratio(num, sb as u128 * p, 24);
    signed_pattern(q, k, minus)
}

/// A quotient of a 60-bit shifted number by a 24-bit number is normal.
proof fn lemma_normal_quotient(num: nat, den: nat)
    requires
        num >= 0x1000_0000_0000_0000,
        0 < den <= 0x100_0000,
    ensures
        bit_len(num / den) >= 24,
{
    lemma2_to64();
    let w = num / den;
    lemma_fundamental_div_mod(num as int, den as int);
    lemma_mod_bound(num as int, den as int);
    if w < 0x10_0000_0000 {
        assert(den * (w + 1) <= 0x100_0000 * 0x10_0000_0000) by (nonlinear_arith)
            requires
                den <= 0x100_0000,
                w + 1 <= 0x10_0000_0000,
        ;
        assert(den * (w + 1) == den * w + den) by (nonlinear_arith);
    }
    lemma_bit_len(w);
    if bit_len(w) < 24 {
        lemma_pow2_strictly_increases(bit_len(w), 36);
    }
}

// ---- Whole numbers ----------------------------------------------------------

/// The single nearest to a whole number.
pub open spec fn number(n: nat) -> Bits {
    pattern(false, nearest(n, 24) * pow2(149))
}

/// The single nearest to a whole number.
pub fn from_whole(n: u64) -> (r: Bits)
    ensures
        r == number(n as nat),
{
    let (q, k): (u64, u32) = round_to(n as u128, 24);
    proof {
        lemma2_to64();
        lemma_pow2_adds(k as nat, 149);
        assert((q * pow2(k as nat)) * pow2(149) == q * (pow2(k as nat) * pow2(149))) by (nonlinear_arith);
    }
    signed_pattern(q, k + 149, false)
}

} // verus!
