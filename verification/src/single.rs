//! Single-precision numbers, read from their bit patterns.
//!
//! Times, levels and samples travel through the library as the 32 bits of an
//! IEEE 754 single. A pattern stands for a whole multiple of 2^-149, the
//! smallest positive single, so order, distance and the arithmetic that turns
//! seconds into frames can be stated over integers without any loss.

use vstd::prelude::*;
use vstd::arithmetic::power2::*;
use vstd::arithmetic::div_mod::*;
use vstd::arithmetic::mul::*;
use crate::rounding::{nearest, nearest_ratio, bit_len, power_of_two, round_to, round_ratio};
use crate::rounding::{lemma_bit_len, lemma_nearest_scaled, lemma_nearest_monotone, lemma_nearest_bounds};
use crate::rounding::{lemma_ratio_scaled, lemma_ratio_cancel};

verus! {

/// The bits of a single-precision number.
pub type Bits = u32;

/// The pattern of positive infinity; patterns below it are the finite
/// non-negative numbers, in order.
pub const INFINITY: Bits = 0x7f80_0000;

/// The patterns of the numbers that many modules need.
pub const ONE: Bits = 0x3f80_0000;
pub const TWO: Bits = 0x4000_0000;
pub const HALF: Bits = 0x3f00_0000;
pub const THOUSAND: Bits = 0x447a_0000;
pub const MILLIONTH: Bits = 0x3586_37bd;
pub const MINUS_ONE: Bits = 0xbf80_0000;

pub open spec fn negative(b: Bits) -> bool {
    b >= 0x8000_0000
}

/// The pattern without its sign.
pub open spec fn unsigned(b: Bits) -> nat {
    (b % 0x8000_0000) as nat
}

pub open spec fn is_nan(b: Bits) -> bool {
    unsigned(b) > INFINITY
}

pub open spec fn is_finite(b: Bits) -> bool {
    unsigned(b) < INFINITY
}

/// The exponent of the last digit, counted from 2^-149.
pub open spec fn last_digit(b: Bits) -> nat {
    let e = unsigned(b) / 0x80_0000;
    if e == 0 {
        0
    } else {
        (e - 1) as nat
    }
}

/// The 24-bit significand.
pub open spec fn significand(b: Bits) -> nat {
    let e = unsigned(b) / 0x80_0000;
    let f = unsigned(b) % 0x80_0000;
    if e == 0 {
        f
    } else {
        f + 0x80_0000
    }
}

/// Absolute value, in multiples of 2^-149. Infinity counts as 2^128, above
/// every finite number.
pub open spec fn magnitude(b: Bits) -> nat {
    significand(b) * pow2(last_digit(b))
}

/// Value, in multiples of 2^-149.
pub open spec fn value(b: Bits) -> int {
    if negative(b) {
        -(magnitude(b) as int)
    } else {
        magnitude(b) as int
    }
}

/// The comparison `a < b` of two numbers; false when one is not a number.
pub open spec fn less(a: Bits, b: Bits) -> bool {
    !is_nan(a) && !is_nan(b) && value(a) < value(b)
}

/// The comparison `a <= b` of two numbers; false when one is not a number.
pub open spec fn at_most(a: Bits, b: Bits) -> bool {
    !is_nan(a) && !is_nan(b) && value(a) <= value(b)
}

pub open spec fn distance(a: Bits, b: Bits) -> nat {
    if value(a) >= value(b) {
        (value(a) - value(b)) as nat
    } else {
        (value(b) - value(a)) as nat
    }
}

/// Patterns without sign are ordered like the magnitudes they stand for.
pub proof fn lemma_magnitude_order(a: Bits, b: Bits)
    ensures
        unsigned(a) < unsigned(b) <==> magnitude(a) < magnitude(b),
        unsigned(a) == unsigned(b) <==> magnitude(a) == magnitude(b),
{
    if unsigned(a) < unsigned(b) {
        lemma_magnitude_step(a, b);
    } else if unsigned(b) < unsigned(a) {
        lemma_magnitude_step(b, a);
    }
}

/// Non-negative patterns are ordered like their values.
pub proof fn lemma_pattern_order(a: Bits, b: Bits)
    requires
        a < 0x8000_0000,
        b < 0x8000_0000,
    ensures
        a <= b <==> value(a) <= value(b),
{
    lemma_magnitude_order(a, b);
}

proof fn lemma_magnitude_step(a: Bits, b: Bits)
    requires
        unsigned(a) < unsigned(b),
    ensures
        magnitude(a) < magnitude(b),
        last_digit(b) > 0 ==> magnitude(b) - magnitude(a) >= pow2((last_digit(b) - 1) as nat),
{
    let (sa, ea) = (significand(a), last_digit(a));
    let (sb, eb) = (significand(b), last_digit(b));
    lemma_pow2_pos(ea);
    lemma_pow2_pos(eb);
    assert(ea <= eb);
    if ea == eb {
        assert(sa < sb);
        assert(sb * pow2(eb) >= sa * pow2(eb) + pow2(eb)) by (nonlinear_arith)
            requires
                sa + 1 <= sb,
        ;
        if eb > 0 {
            lemma_pow2_unfold(eb);
        }
    } else {
        // the significand of b is normal, so b is at least 2^24 half-steps
        assert(sb >= 0x80_0000 && sa < 0x100_0000);
        let h = (eb - 1) as nat;
        lemma_pow2_unfold(eb);
        lemma_pow2_pos(h);
        if ea < h {
            lemma_pow2_strictly_increases(ea, h);
        }
        assert(sa * pow2(ea) <= sa * pow2(h)) by (nonlinear_arith)
            requires
                pow2(ea) <= pow2(h),
        ;
        assert(sa * pow2(h) + pow2(h) <= 0x100_0000 * pow2(h)) by (nonlinear_arith)
            requires
                sa + 1 <= 0x100_0000,
        ;
        assert(sb * pow2(eb) >= 0x100_0000 * pow2(h)) by (nonlinear_arith)
            requires
                sb >= 0x80_0000,
                pow2(eb) == 2 * pow2(h),
        ;
    }
}

/// Is the pattern not a number?
pub fn not_a_number(b: Bits) -> (r: bool)
    ensures
        r == is_nan(b),
{
    b % 0x8000_0000 > INFINITY
}

/// The comparison `a < b`.
pub fn less_than(a: Bits, b: Bits) -> (r: bool)
    ensures
        r == less(a, b),
{
    proof {
        lemma_magnitude_order(a, b);
        lemma_zero(a);
        lemma_zero(b);
    }
    let ua: u32 = a % 0x8000_0000;
    let ub: u32 = b % 0x8000_0000;
    if ua > INFINITY || ub > INFINITY {
        return false;
    }
    if a < 0x8000_0000 {
        b < 0x8000_0000 && ua < ub
    } else if b < 0x8000_0000 {
        ua != 0 || ub != 0
    } else {
        ub < ua
    }
}

/// The comparison `a <= b`.
pub fn is_at_most(a: Bits, b: Bits) -> (r: bool)
    ensures
        r == at_most(a, b),
{
    !not_a_number(a) && !not_a_number(b) && !less_than(b, a)
}

/// `b.clamp(lo, hi)`: what is not a number stays as it is.
pub open spec fn clamped(b: Bits, lo: Bits, hi: Bits) -> Bits {
    if less(b, lo) {
        lo
    } else if less(hi, b) {
        hi
    } else {
        b
    }
}

/// `b.clamp(lo, hi)`.
pub fn clamp(b: Bits, lo: Bits, hi: Bits) -> (r: Bits)
    requires
        at_most(lo, hi),
    ensures
        r == clamped(b, lo, hi),
        !is_nan(b) ==> at_most(lo, r) && at_most(r, hi),
{
    if less_than(b, lo) {
        lo
    } else if less_than(hi, b) {
        hi
    } else {
        b
    }
}

/// `b.max(0.0)`: zero for negative numbers and for what is not a number.
pub open spec fn not_negative(b: Bits) -> Bits {
    if less(0, b) {
        b
    } else {
        0
    }
}

/// `b.max(0.0)`.
pub fn at_least_zero(b: Bits) -> (r: Bits)
    ensures
        r == not_negative(b),
        r <= INFINITY,
{
    proof {
        lemma_zero(0);
        lemma_zero(b);
    }
    if less_than(0, b) {
        b
    } else {
        0
    }
}

/// Only the two zeros have magnitude zero.
pub proof fn lemma_zero(b: Bits)
    ensures
        magnitude(b) == 0 <==> unsigned(b) == 0,
{
    lemma_pow2_pos(last_digit(b));
    if unsigned(b) != 0 {
        assert(significand(b) > 0);
        assert(significand(b) * pow2(last_digit(b)) > 0) by (nonlinear_arith)
            requires
                significand(b) > 0,
                pow2(last_digit(b)) > 0,
        ;
    } else {
        assert(0 * pow2(last_digit(b)) == 0);
    }
}

/// Takes a pattern apart into its significand and the exponent of the last
/// digit.
pub fn take_apart(b: Bits) -> (r: (u64, u32))
    ensures
        r.0 == significand(b),
        r.1 == last_digit(b),
        r.0 < 0x100_0000,
        r.1 <= 254,
{
    let u: u32 = b % 0x8000_0000;
    let e: u32 = u / 0x80_0000;
    let f: u32 = u % 0x80_0000;
    if e == 0 {
        (f as u64, 0)
    } else {
        (f as u64 + 0x80_0000, e - 1)
    }
}

/// The pattern of `q * 2^(e - 149)`, for a `q` of at most 24 bits.
pub fn encode(q: u64, e: u32) -> (b: Bits)
    requires
        q <= 0x100_0000,
        e <= 252 || (e == 253 && q < 0x100_0000),
    ensures
        b < INFINITY,
        magnitude(b) == q * pow2(e as nat),
{
    let mut m: u64 = q;
    let mut k: u32 = e;
    if m == 0x100_0000 {
        proof {
            lemma_pow2_unfold((e + 1) as nat);
            assert(0x100_0000 * pow2(e as nat) == 0x80_0000 * (2 * pow2(e as nat))) by (nonlinear_arith);
        }
        m = 0x80_0000;
        k = e + 1;
    }
    while m < 0x80_0000 && k > 0
        invariant
            m < 0x100_0000,
            k <= 253,
            m * pow2(k as nat) == q * pow2(e as nat),
        decreases k,
    {
        proof {
            lemma_pow2_unfold(k as nat);
            assert(m * (2 * pow2((k - 1) as nat)) == (2 * m) * pow2((k - 1) as nat)) by (nonlinear_arith);
        }
        m = 2 * m;
        k = k - 1;
    }
    if m < 0x80_0000 {
        m as u32
    } else {
        (k + 1) * 0x80_0000 + (m as u32 - 0x80_0000)
    }
}

// ---- Products with a whole number -------------------------------------------

/// The single nearest to a whole number, as a whole number.
pub open spec fn whole(n: nat) -> nat {
    nearest(n, 24)
}

/// The rounded product of a number and a whole number that was itself first
/// brought to single precision, in multiples of 2^-149.
pub open spec fn product(b: Bits, n: nat) -> nat {
    nearest(magnitude(b) * whole(n), 24)
}

/// `(b * n) as usize` for a number `b` and a whole number `n`: the rounded
/// product without its fraction, zero for negative numbers and for patterns
/// that are no number, and the greatest index where the product is too large.
pub open spec fn floor_product(b: Bits, n: nat) -> nat {
    if is_nan(b) || negative(b) {
        0
    } else {
        at_most_index(product(b, n) / pow2(149))
    }
}

/// `(b * n).ceil() as usize`.
pub open spec fn ceil_product(b: Bits, n: nat) -> nat {
    if is_nan(b) || negative(b) {
        0
    } else {
        at_most_index((product(b, n) + pow2(149) - 1) as nat / pow2(149))
    }
}

pub open spec fn at_most_index(x: nat) -> nat {
    if x > usize::MAX {
        usize::MAX as nat
    } else {
        x
    }
}

/// A later time never lands on an earlier frame.
pub proof fn lemma_floor_product_monotone(a: Bits, b: Bits, n: nat)
    requires
        a <= b < INFINITY,
    ensures
        floor_product(a, n) <= floor_product(b, n),
{
    lemma_magnitude_order(a, b);
    let w = whole(n);
    assert(magnitude(a) * w <= magnitude(b) * w) by (nonlinear_arith)
        requires
            magnitude(a) <= magnitude(b),
    ;
    lemma_nearest_monotone(magnitude(a) * w, magnitude(b) * w, 24);
    lemma_pow2_pos(149);
    lemma_div_is_ordered(product(a, n) as int, product(b, n) as int, pow2(149) as int);
}

/// Quotient and remainder of `q * 2^e` by `2^s`, the quotient cut at the
/// greatest 64-bit number.
pub fn shift_down(q: u64, e: u32, s: u32) -> (r: (u64, bool))
    requires
        q <= 0x20_0000_0000_0000,
        e <= 2100,
        s <= 1200,
    ensures
        r.0 == (if (q * pow2(e as nat)) as nat / pow2(s as nat) > u64::MAX {
            u64::MAX as nat
        } else {
            (q * pow2(e as nat)) as nat / pow2(s as nat)
        }),
        r.1 == ((q * pow2(e as nat)) as nat % pow2(s as nat) == 0),
{
    proof {
        lemma2_to64();
        lemma2_to64_rest();
        lemma_pow2_pos(s as nat);
        lemma_pow2_pos(e as nat);
    }
    if e >= s {
        let d: u32 = e - s;
        proof {
            lemma_pow2_adds(d as nat, s as nat);
            lemma_pow2_pos(d as nat);
            assert(q * pow2(e as nat) == pow2(s as nat) * (q * pow2(d as nat)) + 0) by (nonlinear_arith)
                requires
                    pow2(e as nat) == pow2(d as nat) * pow2(s as nat),
            ;
            lemma_fundamental_div_mod_converse(
                q * pow2(e as nat),
                pow2(s as nat) as int,
                q * pow2(d as nat),
                0,
            );
        }
        if q == 0 {
            assert(0 * pow2(d as nat) == 0);
            return (0, true);
        }
        if d >= 64 {
            proof {
                if d > 64 {
                    lemma_pow2_strictly_increases(64, d as nat);
                }
                assert(q * pow2(d as nat) >= pow2(64)) by (nonlinear_arith)
                    requires
                        q >= 1,
                        pow2(d as nat) >= pow2(64),
                ;
            }
            return (u64::MAX, true);
        }
        let p: u64 = power_of_two(d);
        proof {
            assert(q * p <= 0x20_0000_0000_0000 * u64::MAX) by (nonlinear_arith)
                requires
                    q <= 0x20_0000_0000_0000,
                    p <= u64::MAX,
            ;
        }
        let wide: u128 = q as u128 * p as u128;
        if wide > u64::MAX as u128 {
            (u64::MAX, true)
        } else {
            (wide as u64, true)
        }
    } else {
        let d: u32 = s - e;
        proof {
            lemma_pow2_adds(d as nat, e as nat);
        }
        if d >= 56 {
            proof {
                lemma_pow2_strictly_increases(54, d as nat);
                assert(q * pow2(e as nat) < pow2(s as nat)) by (nonlinear_arith)
                    requires
                        q < pow2(d as nat),
                        pow2(e as nat) > 0,
                        pow2(s as nat) == pow2(d as nat) * pow2(e as nat),
                ;
                lemma_small_mod((q * pow2(e as nat)) as nat, pow2(s as nat));
                lemma_basic_div(q * pow2(e as nat), pow2(s as nat) as int);
                if q > 0 {
                    assert(q * pow2(e as nat) > 0) by (nonlinear_arith)
                        requires
                            q > 0,
                            pow2(e as nat) > 0,
                    ;
                } else {
                    assert(0 * pow2(e as nat) == 0);
                }
            }
            return (0, q == 0);
        }
        let p: u64 = power_of_two(d);
        let w: u64 = q / p;
        let r: u64 = q % p;
        proof {
            lemma_fundamental_div_mod(q as int, p as int);
            let pe = pow2(e as nat);
            assert(q * pe == (pow2(s as nat)) * w + r * pe) by (nonlinear_arith)
                requires
                    q == p * w + r,
                    pow2(s as nat) == p * pe,
            ;
            assert(0 <= r * pe < pow2(s as nat)) by (nonlinear_arith)
                requires
                    0 <= r < p,
                    pe > 0,
                    pow2(s as nat) == p * pe,
            ;
            lemma_fundamental_div_mod_converse(q * pe, pow2(s as nat) as int, w as int, r * pe);
            assert((r * pe == 0) == (r == 0)) by (nonlinear_arith)
                requires
                    pe > 0,
            ;
        }
        (w, r == 0)
    }
}

/// The rounded product of the magnitude of `b` and `n`, as quotient and
/// exponent.
fn product_parts(b: Bits, n: u64) -> (r: (u64, u32))
    ensures
        r.0 * pow2(r.1 as nat) == product(b, n as nat),
        r.0 <= 0x100_0000,
        r.1 <= 600,
{
    let (sig, e): (u64, u32) = take_apart(b);
    let (w, we): (u64, u32) = round_to(n as u128, 24);
    proof {
        lemma2_to64();
        lemma2_to64_rest();
        assert(sig * w <= 0x100_0000 * 0x100_0000) by (nonlinear_arith)
            requires
                sig <= 0x100_0000,
                w <= 0x100_0000,
        ;
    }
    let m: u64 = sig * w;
    let (q, k): (u64, u32) = round_to(m as u128, 24);
    proof {
        let (pe, pw, pk) = (pow2(e as nat), pow2(we as nat), pow2(k as nat));
        lemma_pow2_adds(e as nat, we as nat);
        lemma_pow2_adds(k as nat, (e + we) as nat);
        assert(magnitude(b) * whole(n as nat) == m * pow2((e + we) as nat)) by (nonlinear_arith)
            requires
                magnitude(b) == sig * pe,
                whole(n as nat) == w * pw,
                m == sig * w,
                pow2((e + we) as nat) == pe * pw,
        ;
        lemma_nearest_scaled(m as nat, (e + we) as nat, 24);
        assert(q * pow2((k + e + we) as nat) == (q * pk) * pow2((e + we) as nat)) by (nonlinear_arith)
            requires
                pow2((k + e + we) as nat) == pk * pow2((e + we) as nat),
        ;
    }
    (q, k + e + we)
}

/// `(b * n) as usize`: the frame that a time `b` falls on at `n` frames per
/// second.
pub fn floor_times(b: Bits, n: u64) -> (r: usize)
    ensures
        r == floor_product(b, n as nat),
{
    if not_a_number(b) || b >= 0x8000_0000 {
        return 0;
    }
    let (q, e): (u64, u32) = product_parts(b, n);
    let (w, _x): (u64, bool) = shift_down(q, e, 149);
    if w > usize::MAX as u64 {
        usize::MAX
    } else {
        w as usize
    }
}

/// `(b * n).ceil() as usize`: the first frame at or after a time `b`.
pub fn ceil_times(b: Bits, n: u64) -> (r: usize)
    ensures
        r == ceil_product(b, n as nat),
{
    if not_a_number(b) || b >= 0x8000_0000 {
        return 0;
    }
    let (q, e): (u64, u32) = product_parts(b, n);
    let (w, exact): (u64, bool) = shift_down(q, e, 149);
    proof {
        let x = product(b, n as nat);
        let d = pow2(149);
        lemma_pow2_pos(149);
        lemma_fundamental_div_mod(x as int, d as int);
        lemma_mod_bound(x as int, d as int);
        let k = x / d;
        if x % d == 0 {
            assert(x + d - 1 == d * k + (d - 1));
            lemma_fundamental_div_mod_converse(x + d - 1, d as int, k as int, d - 1);
        } else {
            assert(d * (k + 1) == d * k + d) by (nonlinear_arith);
            lemma_fundamental_div_mod_converse(x + d - 1, d as int, (k + 1) as int, x % d - 1);
        }
    }
    if w >= usize::MAX as u64 {
        usize::MAX
    } else if exact {
        w as usize
    } else {
        w as usize + 1
    }
}

// ---- Quotients of whole numbers ---------------------------------------------

/// The rounded quotient of two whole numbers that were first brought to single
/// precision, in multiples of 2^-149.
pub open spec fn quotient(a: nat, b: nat) -> nat {
    nearest_ratio(whole(a) * pow2(149), whole(b), 24)
}

/// `a as f32 / b as f32`, as a pattern.
pub fn divide(a: u64, b: u64) -> (r: Bits)
    requires
        b > 0,
    ensures
        r < INFINITY,
        magnitude(r) == quotient(a as nat, b as nat),
{
    proof {
        lemma2_to64();
        lemma2_to64_rest();
    }
    let (qa, ea): (u64, u32) = round_to(a as u128, 24);
    let (qb, eb): (u64, u32) = round_to(b as u128, 24);
    proof {
        lemma_bit_len_u64(a);
        lemma_bit_len_u64(b);
        lemma_pow2_pos(eb as nat);
        lemma_whole_positive(b as nat);
        if qb == 0 {
            assert(0 * pow2(eb as nat) == 0);
        }
    }
    if qa == 0 {
        proof {
            assert(whole(a as nat) == 0) by {
                assert(0 * pow2(ea as nat) == 0);
            }
            assert(0 * pow2(149) == 0);
            let d = whole(b as nat);
            assert(0nat / d == 0) by {
                lemma_basic_div(0, d as int);
            }
            assert(d * 1 == d);
            lemma_small_mod(0, d);
            assert(bit_len(0) == 0);
            assert(quotient(a as nat, b as nat) == 0);
            lemma_zero(0);
        }
        return 0;
    }
    assert(qa * 0x1000_0000_0000_0000 < u128::MAX) by (nonlinear_arith)
        requires
            qa <= 0x100_0000,
    ;
    let num: u128 = qa as u128 * 0x1000_0000_0000_0000u128;
    let den: u128 = qb as u128;
    let (q, k): (u64, u32) = round_ratio(num, den, 24);
    let e: u32 = k + ea + 89 - eb;
    proof {
        let w = num as nat / den as nat;
        // the quotient is normal: 2^36 <= num / den <= 2^84
        assert(w >= pow2(36)) by {
            assert(pow2(60) == 0x1000_0000_0000_0000);
            lemma_fundamental_div_mod(num as int, den as int);
            lemma_mod_bound(num as int, den as int);
            assert(num >= 0x1000_0000_0000_0000) by (nonlinear_arith)
                requires
                    num == qa * 0x1000_0000_0000_0000,
                    qa >= 1,
            ;
            if w < 0x10_0000_0000 {
                assert(den * (w + 1) <= 0x100_0000 * 0x10_0000_0000) by (nonlinear_arith)
                    requires
                        den <= 0x100_0000,
                        w + 1 <= 0x10_0000_0000,
                ;
                assert(den * (w + 1) == den * w + den) by (nonlinear_arith);
            }
        }
        lemma_bit_len(w);
        if bit_len(w) < 24 {
            lemma_pow2_strictly_increases(bit_len(w), 36);
        }
        assert(bit_len(w) <= 85) by {
            assert(w <= num) by {
                lemma_div_is_ordered_by_denominator(num as int, 1, den as int);
            }
            assert(num <= 0x10_0000_0000_0000_0000_0000) by (nonlinear_arith)
                requires
                    num == qa * 0x1000_0000_0000_0000,
                    qa <= 0x100_0000,
            ;
            if bit_len(w) > 85 {
                lemma_pow2_adds(24, 60);
                assert(pow2(84) == 0x10_0000_0000_0000_0000_0000) by {
                    assert(0x100_0000 * 0x1000_0000_0000_0000 == 0x10_0000_0000_0000_0000_0000int)
                        by (nonlinear_arith);
                }
                lemma_pow2_strictly_increases(84, (bit_len(w) - 1) as nat);
            }
        }
        // put the exponents back
        let j = (ea + 89) as nat;
        let c = pow2(eb as nat);
        let d = (j - eb) as nat;
        lemma_pow2_adds(60, 89);
        lemma_pow2_adds((149 - 60) as nat, ea as nat);
        lemma_pow2_adds(d, eb as nat);
        assert(whole(a as nat) * pow2(149) == (num as nat * pow2(d)) * c) by (nonlinear_arith)
            requires
                whole(a as nat) == qa * pow2(ea as nat),
                pow2(149) == 0x1000_0000_0000_0000 * pow2(89),
                num == qa * 0x1000_0000_0000_0000,
                pow2(89) * pow2(ea as nat) == pow2(d) * c,
        ;
        lemma_ratio_cancel(num as nat * pow2(d), den as nat, c, 24);
        lemma_ratio_scaled(num as nat, den as nat, d, 24);
        lemma_pow2_adds(k as nat, d);
        assert((q * pow2(k as nat)) * pow2(d) == q * (pow2(k as nat) * pow2(d))) by (nonlinear_arith);
    }
    encode(q, e)
}

proof fn lemma_bit_len_u64(x: u64)
    ensures
        bit_len(x as nat) <= 64,
{
    lemma_bit_len(x as nat);
    lemma2_to64();
    if bit_len(x as nat) > 64 {
        if bit_len(x as nat) - 1 > 64 {
            lemma_pow2_strictly_increases(64, (bit_len(x as nat) - 1) as nat);
        }
    }
}

proof fn lemma_whole_positive(n: nat)
    requires
        n > 0,
    ensures
        whole(n) > 0,
{
    lemma_nearest_bounds(n, 24);
    lemma_nearest_bounds(1, 24);
    lemma_nearest_monotone(1, n, 24);
    lemma2_to64();
    assert(bit_len(1) == 1) by {
        crate::rounding::lemma_bit_len_unique(1, 1);
    }
}

// ---- Distances --------------------------------------------------------------

/// How a distance stands to a limit.
#[derive(Clone, Copy, PartialEq, Eq, Debug, Structural)]
pub enum Side {
    Below,
    At,
    Above,
}

/// Compares the distance of two numbers with `m * 2^(s - 149)`.
pub fn distance_side(a: Bits, b: Bits, m: u64, s: u32) -> (r: Side)
    requires
        0x100_0000 <= m < 0x400_0000,
        1 <= s <= 200,
    ensures
        r == (if distance(a, b) < m * pow2(s as nat) {
            Side::Below
        } else if distance(a, b) == m * pow2(s as nat) {
            Side::At
        } else {
            Side::Above
        }),
{
    let ua: u32 = a % 0x8000_0000;
    let ub: u32 = b % 0x8000_0000;
    let (x, y): (u32, u32) = if ua >= ub {
        (a, b)
    } else {
        (b, a)
    };
    let same: bool = (a < 0x8000_0000) == (b < 0x8000_0000);
    let (mx, ex): (u64, u32) = take_apart(x);
    let (my, ey): (u64, u32) = take_apart(y);
    let ghost unit = pow2(s as nat);
    let ghost gx = magnitude(x);
    let ghost gy = magnitude(y);
    proof {
        lemma_magnitude_order(a, b);
        lemma_pow2_pos(s as nat);
        lemma2_to64();
        lemma2_to64_rest();
        assert(gx >= gy);
        assert(distance(a, b) == if same { (gx - gy) as nat } else { gx + gy });
    }
    if ex < s {
        proof {
            // both magnitudes stay below half the limit
            lemma_pow2_unfold(s as nat);
            let h = pow2((s - 1) as nat);
            lemma_below_half(x, s as nat);
            lemma_below_half(y, s as nat);
            assert(2 * (0xff_ffff * h) < m * unit) by (nonlinear_arith)
                requires
                    m >= 0x100_0000,
                    unit == 2 * h,
                    h > 0,
            ;
        }
        return Side::Below;
    }
    let d: u32 = ex - s;
    let ghost dx = pow2(d as nat);
    proof {
        lemma_pow2_adds(d as nat, s as nat);
        lemma_pow2_pos(d as nat);
        assert(gx == (mx * dx) * unit) by (nonlinear_arith)
            requires
                gx == mx * pow2(ex as nat),
                pow2(ex as nat) == dx * unit,
        ;
    }
    if d > 39 {
        proof {
            lemma_pow2_strictly_increases(39, d as nat);
            lemma_pow2_unfold(d as nat);
            if d > 40 {
                lemma_pow2_strictly_increases(39, (d - 1) as nat);
            }
            lemma_pow2_adds((d - 1) as nat, s as nat);
            assert(pow2((ex - 1) as nat) > m * unit) by (nonlinear_arith)
                requires
                    pow2((ex - 1) as nat) == pow2((d - 1) as nat) * unit,
                    pow2((d - 1) as nat) >= pow2(39),
                    pow2(39) > m,
                    unit > 0,
            ;
            assert(m * unit > 0) by (nonlinear_arith)
                requires
                    m > 0,
                    unit > 0,
            ;
            if unsigned(y) < unsigned(x) {
                lemma_magnitude_step(y, x);
            }
            assert(ex > 0);
            assert(mx >= 0x80_0000);
            assert(gx > m * unit) by (nonlinear_arith)
                requires
                    gx == (mx * dx) * unit,
                    mx >= 1,
                    dx > m,
                    unit > 0,
            ;
        }
        if same && ua == ub {
            return Side::Below;
        }
        return Side::Above;
    }
    proof {
        if d < 39 {
            lemma_pow2_strictly_increases(d as nat, 39);
        }
        assert(mx * dx <= 0xff_ffff * 0x80_0000_0000) by (nonlinear_arith)
            requires
                mx <= 0xff_ffff,
                dx <= 0x80_0000_0000,
        ;
    }
    let wx: u64 = mx * power_of_two(d);
    let (wy, exact): (u64, bool) = shift_down(my, ey, s);
    let ghost ry = gy % unit;
    proof {
        lemma_fundamental_div_mod(gy as int, unit as int);
        lemma_mod_bound(gy as int, unit as int);
        lemma_div_is_ordered(gy as int, gx as int, unit as int);
        assert(gx / unit == wx) by {
            lemma_fundamental_div_mod_converse(gx as int, unit as int, wx as int, 0);
        }
        assert(gy == unit * wy + ry);
        lemma_distance_units(wx as int, wy as int, ry as int, m as int, unit as int);
    }
    if same {
        if wx - wy > m {
            Side::Above
        } else if wx - wy == m && exact {
            Side::At
        } else {
            Side::Below
        }
    } else {
        if wx + wy > m {
            Side::Above
        } else if wx + wy == m {
            if exact {
                Side::At
            } else {
                Side::Above
            }
        } else {
            Side::Below
        }
    }
}

proof fn lemma_below_half(x: Bits, s: nat)
    requires
        last_digit(x) < s,
    ensures
        magnitude(x) <= 0xff_ffff * pow2((s - 1) as nat),
{
    let e = last_digit(x);
    let h = (s - 1) as nat;
    if e < h {
        lemma_pow2_strictly_increases(e, h);
    }
    assert(significand(x) * pow2(e) <= 0xff_ffff * pow2(h)) by (nonlinear_arith)
        requires
            significand(x) <= 0xff_ffff,
            pow2(e) <= pow2(h),
    ;
}

/// Comparing whole units, with a remainder on the smaller number.
proof fn lemma_distance_units(wx: int, wy: int, ry: int, m: int, unit: int)
    requires
        unit > 0,
        0 <= ry < unit,
        wx >= wy >= 0,
    ensures
        wx - wy > m ==> wx * unit - (unit * wy + ry) > m * unit,
        wx - wy == m ==> wx * unit - (unit * wy + ry) == m * unit - ry,
        wx - wy < m ==> wx * unit - (unit * wy + ry) < m * unit,
        wx + wy > m ==> wx * unit + (unit * wy + ry) > m * unit,
        wx + wy == m ==> wx * unit + (unit * wy + ry) == m * unit + ry,
        wx + wy < m ==> wx * unit + (unit * wy + ry) < m * unit,
{
    let a = wx - wy;
    assert(wx * unit - unit * wy == a * unit) by (nonlinear_arith)
        requires
            a == wx - wy,
    ;
    let b = wx + wy;
    assert(wx * unit + unit * wy == b * unit) by (nonlinear_arith)
        requires
            b == wx + wy,
    ;
    lemma_unit_gap(a, m, unit);
    lemma_unit_gap(b, m, unit);
    lemma_unit_gap(m, a, unit);
    lemma_unit_gap(m, b, unit);
}

proof fn lemma_unit_gap(a: int, b: int, unit: int)
    requires
        unit > 0,
    ensures
        a > b ==> a * unit >= b * unit + unit,
{
    if a > b {
        assert(a * unit >= b * unit + unit) by (nonlinear_arith)
            requires
                a >= b + 1,
                unit > 0,
        ;
    }
}

// ---- Thresholds -------------------------------------------------------------

/// A normal, odd single in the middle of the range, as the tolerances are.
pub open spec fn is_tolerance(c: Bits) -> bool {
    0x1000_0000 <= c < 0x5000_0000 && c % 2 == 1
}

/// `(a - b).abs() < c` for finite numbers, the difference rounded to single
/// precision.
pub open spec fn closer(a: Bits, b: Bits, c: Bits) -> bool {
    nearest(distance(a, b), 24) < magnitude(c)
}

/// `(a - b).abs() > c`, false where `a` or `b` is not a number.
pub open spec fn farther(a: Bits, b: Bits, c: Bits) -> bool {
    !is_nan(a) && !is_nan(b) && nearest(distance(a, b), 24) > magnitude(c)
}

/// Around an odd significand, rounding decides at the midpoints to its
/// neighbours, and the midpoints themselves round away from it.
proof fn lemma_threshold(sig: nat, e: nat, d: nat)
    requires
        0x80_0000 < sig < 0x100_0000,
        sig % 2 == 1,
        e >= 2,
    ensures
        nearest(d, 24) < sig * pow2(e) <==> d <= (2 * sig - 1) * pow2((e - 1) as nat),
        nearest(d, 24) > sig * pow2(e) <==> d >= (2 * sig + 1) * pow2((e - 1) as nat),
{
    lemma2_to64();
    let h = pow2((e - 1) as nat);
    let u = pow2(e);
    lemma_pow2_unfold(e);
    lemma_pow2_unfold((e - 1) as nat);
    lemma_pow2_pos((e - 2) as nat);
    let lo = ((2 * sig - 1) * h) as nat;
    let hi = ((2 * sig + 1) * h) as nat;
    assert(lo == (sig - 1) * u + h) by (nonlinear_arith)
        requires
            lo == (2 * sig - 1) * h,
            u == 2 * h,
    ;
    assert(hi == sig * u + h) by (nonlinear_arith)
        requires
            hi == (2 * sig + 1) * h,
            u == 2 * h,
    ;
    assert((sig - 1) * u + u == sig * u) by (nonlinear_arith);
    assert(sig * u + u == (sig + 1) * u) by (nonlinear_arith);
    lemma_rounding_at((sig - 1) as nat, e, h, lo);
    lemma_rounding_at((sig - 1) as nat, e, h + 1, lo + 1);
    lemma_rounding_at(sig, e, h, hi);
    lemma_rounding_at(sig, e, (h - 1) as nat, (hi - 1) as nat);
    if d <= lo {
        lemma_nearest_monotone(d, lo, 24);
    } else {
        lemma_nearest_monotone(lo + 1, d, 24);
    }
    if d >= hi {
        lemma_nearest_monotone(hi, d, 24);
    } else {
        lemma_nearest_monotone(d, (hi - 1) as nat, 24);
    }
}

/// The rounding of `q * 2^e + r` for a 24-bit `q`.
proof fn lemma_rounding_at(q: nat, e: nat, r: nat, x: nat)
    requires
        0x80_0000 <= q < 0x100_0000,
        e >= 1,
        r <= pow2((e - 1) as nat) + 1,
        r < pow2(e),
        x == q * pow2(e) + r,
    ensures
        nearest(x, 24) == (if 2 * r > pow2(e) || (2 * r == pow2(e) && q % 2 == 1) {
            (q + 1) * pow2(e)
        } else {
            q * pow2(e)
        }),
{
    lemma2_to64();
    let u = pow2(e);
    lemma_pow2_pos(e);
    lemma_pow2_adds(23, e);
    lemma_pow2_adds(24, e);
    assert(pow2(23) * u <= q * u) by (nonlinear_arith)
        requires
            pow2(23) <= q,
    ;
    assert(q * u + u <= pow2(24) * u) by (nonlinear_arith)
        requires
            q + 1 <= pow2(24),
    ;
    crate::rounding::lemma_bit_len_unique(x, (24 + e) as nat);
    assert(x / 1 == x);
    assert(1 * u == u);
    lemma_fundamental_div_mod_converse(x as int, u as int, q as int, r as int);
}

proof fn lemma_tolerance(c: Bits)
    requires
        is_tolerance(c),
    ensures
        0x80_0000 < significand(c) < 0x100_0000,
        significand(c) % 2 == 1,
        30 <= last_digit(c) <= 160,
{
    assert(unsigned(c) == c);
    let f = c % 0x80_0000;
    assert(c == (c / 0x80_0000) * 0x80_0000 + f);
    assert(f % 2 == 1);
}

/// `(a - b).abs() < c`.
pub fn is_closer(a: Bits, b: Bits, c: Bits) -> (r: bool)
    requires
        is_finite(a),
        is_finite(b),
        is_tolerance(c),
    ensures
        r == closer(a, b, c),
{
    let (sig, e): (u64, u32) = take_apart(c);
    proof {
        lemma_tolerance(c);
        lemma_threshold(sig as nat, e as nat, distance(a, b));
    }
    match distance_side(a, b, 2 * sig - 1, e - 1) {
        Side::Above => false,
        _ => true,
    }
}

/// `(a - b).abs() > c`.
pub fn is_farther(a: Bits, b: Bits, c: Bits) -> (r: bool)
    requires
        is_tolerance(c),
    ensures
        r == farther(a, b, c),
{
    if not_a_number(a) || not_a_number(b) {
        return false;
    }
    let (sig, e): (u64, u32) = take_apart(c);
    proof {
        lemma_tolerance(c);
        lemma_threshold(sig as nat, e as nat, distance(a, b));
    }
    match distance_side(a, b, 2 * sig + 1, e - 1) {
        Side::Below => false,
        _ => true,
    }
}

} // verus!
