//! Double-precision patterns: what they stand for, and how they are narrowed to
//! single precision.

use vstd::prelude::*;
use vstd::arithmetic::power2::*;
use vstd::arithmetic::div_mod::*;
use vstd::arithmetic::mul::*;
use crate::rounding::{nearest_ratio, bit_len, power_of_two, round_to, round_ratio};
use crate::rounding::{lemma_bit_len, lemma_nearest_scaled, lemma_ratio_cancel};
use crate::single::{Bits, INFINITY, magnitude, negative, is_nan, unsigned, encode};

verus! {

/// The bits of a double-precision number.
pub type DoubleBits = u64;

pub open spec fn double_unsigned(d: DoubleBits) -> nat {
    (d % 0x8000_0000_0000_0000) as nat
}

pub open spec fn double_is_nan(d: DoubleBits) -> bool {
    double_unsigned(d) > 0x7ff0_0000_0000_0000
}

pub open spec fn double_is_infinite(d: DoubleBits) -> bool {
    double_unsigned(d) == 0x7ff0_0000_0000_0000
}

/// Absolute value of a finite double, in multiples of 2^-1074.
pub open spec fn double_magnitude(d: DoubleBits) -> nat {
    let e = double_unsigned(d) / 0x10_0000_0000_0000;
    let f = double_unsigned(d) % 0x10_0000_0000_0000;
    if e == 0 {
        f
    } else {
        (f + 0x10_0000_0000_0000) * pow2((e - 1) as nat)
    }
}

/// `b` is the single nearest to the double `d`: same sign, not a number only
/// where `d` is not, and infinite where `d` rounds to 2^128 or beyond.
pub open spec fn narrowed(d: DoubleBits, b: Bits) -> bool {
    if double_is_nan(d) {
        is_nan(b)
    } else {
        let x = nearest_ratio(double_magnitude(d), pow2(925), 24);
        &&& negative(b) == (d >= 0x8000_0000_0000_0000)
        &&& if double_is_infinite(d) || x >= pow2(277) {
            unsigned(b) == INFINITY
        } else {
            unsigned(b) < INFINITY && magnitude(b) == x
        }
    }
}

/// Narrows a double to the nearest single.
pub fn narrow(d: DoubleBits) -> (b: Bits)
    ensures
        narrowed(d, b),
{
    let u: u64 = d % 0x8000_0000_0000_0000;
    let e: u64 = u / 0x10_0000_0000_0000;
    let f: u64 = u % 0x10_0000_0000_0000;
    let sign: u32 = if d >= 0x8000_0000_0000_0000 {
        0x8000_0000
    } else {
        0
    };
    if u > 0x7ff0_0000_0000_0000 {
        return 0x7fc0_0000;
    }
    if u == 0x7ff0_0000_0000_0000 {
        return sign + INFINITY;
    }
    let sig: u64 = if e == 0 {
        f
    } else {
        f + 0x10_0000_0000_0000
    };
    let exp: u32 = if e == 0 {
        0
    } else {
        (e - 1) as u32
    };
    let ghost g = double_magnitude(d);
    proof {
        lemma2_to64();
        lemma2_to64_rest();
        lemma_pow2_pos(exp as nat);
        if e == 0 {
            assert(sig * 1 == sig);
        }
        assert(g == sig * pow2(exp as nat));
    }
    if exp >= 925 {
        let (q, k): (u64, u32) = round_to(sig as u128, 24);
        let t: u32 = k + (exp - 925);
        proof {
            let j = (exp - 925) as nat;
            lemma_pow2_adds(j, 925);
            lemma_pow2_pos(925);
            lemma_pow2_adds(k as nat, j);
            let c = pow2(925);
            assert(g == (sig * pow2(j)) * c) by (nonlinear_arith)
                requires
                    g == sig * pow2(exp as nat),
                    pow2(exp as nat) == pow2(j) * c,
            ;
            assert(1 * c == c);
            lemma_ratio_cancel(sig as nat * pow2(j), 1, c, 24);
            lemma_nearest_scaled(sig as nat, j, 24);
            assert(nearest_ratio(g, c, 24) == q * pow2(t as nat)) by (nonlinear_arith)
                requires
                    nearest_ratio(g, c, 24) == (q * pow2(k as nat)) * pow2(j),
                    pow2(t as nat) == pow2(k as nat) * pow2(j),
            ;
            assert(bit_len(sig as nat) == 53) by {
                crate::rounding::lemma_bit_len_unique(sig as nat, 53);
            }
            lemma_pow2_adds(23, 254);
            lemma_pow2_adds(24, 253);
            lemma_pow2_pos(t as nat);
            if t >= 254 {
                if t > 254 {
                    lemma_pow2_strictly_increases(254, t as nat);
                }
                assert(q * pow2(t as nat) >= pow2(23) * pow2(254)) by (nonlinear_arith)
                    requires
                        q >= pow2(23),
                        pow2(t as nat) >= pow2(254),
                ;
            } else if t < 253 {
                lemma_pow2_strictly_increases(t as nat, 253);
                assert(q * pow2(t as nat) < pow2(24) * pow2(253)) by (nonlinear_arith)
                    requires
                        q <= pow2(24),
                        pow2(t as nat) < pow2(253),
                        pow2(24) > 0,
                ;
            } else if q < 0x100_0000 {
                assert(q * pow2(t as nat) < pow2(24) * pow2(253)) by (nonlinear_arith)
                    requires
                        q < pow2(24),
                        pow2(t as nat) == pow2(253),
                        pow2(253) > 0,
                ;
            }
        }
        if t >= 254 || (t == 253 && q == 0x100_0000) {
            sign + INFINITY
        } else {
            encode(q, t) + sign
        }
    } else {
        let s: u32 = 925 - exp;
        proof {
            lemma_pow2_adds(s as nat, exp as nat);
            lemma_pow2_pos(s as nat);
            lemma_ratio_cancel(sig as nat, pow2(s as nat), pow2(exp as nat), 24);
            assert(nearest_ratio(g, pow2(925), 24) == nearest_ratio(sig as nat, pow2(s as nat), 24));
            lemma_pow2_strictly_increases(64, 277);
        }
        if s >= 64 {
            proof {
                if s > 64 {
                    lemma_pow2_strictly_increases(64, s as nat);
                }
                let t = pow2(s as nat);
                lemma_basic_div(sig as int, t as int);
                assert(bit_len(0) == 0);
                assert(t * 1 == t);
                lemma_small_mod(sig as nat, t);
                assert(2 * (sig as nat % t) < t);
                assert(nearest_ratio(sig as nat, t, 24) == 0);
                crate::single::lemma_zero(sign);
            }
            return sign;
        }
        let den: u64 = power_of_two(s);
        let (q, k): (u64, u32) = round_ratio(sig as u128, den as u128, 24);
        proof {
            let w = sig as nat / den as nat;
            lemma_bit_len(w);
            lemma_div_is_ordered_by_denominator(sig as int, 1, den as int);
            if bit_len(w) > 64 {
                if bit_len(w) - 1 > 64 {
                    lemma_pow2_strictly_increases(64, (bit_len(w) - 1) as nat);
                }
            }
            lemma_pow2_adds(24, 40);
            if k < 40 {
                lemma_pow2_strictly_increases(k as nat, 40);
            }
            assert(q * pow2(k as nat) <= pow2(24) * pow2(40)) by (nonlinear_arith)
                requires
                    q <= pow2(24),
                    pow2(k as nat) <= pow2(40),
            ;
        }
        encode(q, k) + sign
    }
}

} // verus!
