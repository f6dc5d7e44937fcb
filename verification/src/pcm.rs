//! Integer sample formats: depth choice, scaling between samples and integer
//! codes, and packing of codes into bytes.
//!
//! A sample is a single-precision number, nominally in [-1, 1]. A code of
//! depth `d` is an integer in `-2^(d-1) .. 2^(d-1)`.

use vstd::prelude::*;
use vstd::arithmetic::power2::*;
use vstd::arithmetic::div_mod::*;
use vstd::arithmetic::mul::*;
use crate::rounding::{nearest, bit_len, round_to};
use crate::rounding::{lemma_bit_len, lemma_nearest_bounds};
use crate::single::{Bits, INFINITY, ONE, magnitude, negative, is_nan, unsigned};
use crate::single::{not_a_number, take_apart, encode, shift_down, lemma_magnitude_order, significand, last_digit};

verus! {

/// One, in multiples of 2^-149.
pub open spec fn unit() -> nat {
    pow2(149)
}

/// The magnitude of a sample, cut at one.
pub open spec fn cut_at_one(s: Bits) -> nat {
    if magnitude(s) > unit() {
        unit()
    } else {
        magnitude(s)
    }
}

/// The code of depth `d` for a sample: scaled by `2^(d-1)`, cut towards zero,
/// and kept in range. What is not a number becomes silence.
pub open spec fn code_of(s: Bits, d: nat) -> int {
    if is_nan(s) {
        0
    } else {
        let m = (cut_at_one(s) * pow2((d - 1) as nat)) / unit();
        if negative(s) {
            -(m as int)
        } else if m >= pow2((d - 1) as nat) {
            pow2((d - 1) as nat) - 1
        } else {
            m as int
        }
    }
}

/// The sample of a code of depth `d`: the code, in single precision, divided
/// by `2^(d-1)`.
pub open spec fn sample_magnitude(v: int, d: nat) -> nat {
    nearest(abs(v), 24) * pow2((150 - d) as nat)
}

pub open spec fn abs(v: int) -> nat {
    if v < 0 {
        (-v) as nat
    } else {
        v as nat
    }
}

/// A pattern stands for the sample of code `v`.
pub open spec fn is_sample(b: Bits, v: int, d: nat) -> bool {
    unsigned(b) < INFINITY && negative(b) == (v < 0) && magnitude(b) == sample_magnitude(v, d)
}

proof fn lemma_one()
    ensures
        magnitude(ONE) == unit(),
{
    lemma2_to64();
    lemma_pow2_adds(23, 126);
    assert(unsigned(ONE) / 0x80_0000 == 127);
    assert(unsigned(ONE) % 0x80_0000 == 0);
    assert(significand(ONE) == 0x80_0000);
    assert(last_digit(ONE) == 126);
}

/// Quantises one sample to a code of depth `d`.
pub fn quantise(s: Bits, d: u32) -> (v: i32)
    requires
        1 <= d <= 32,
    ensures
        v == code_of(s, d as nat),
        -pow2((d - 1) as nat) <= v < pow2((d - 1) as nat),
{
    proof {
        lemma2_to64();
        lemma_one();
        lemma_magnitude_order(s, ONE);
        lemma_pow2_pos((d - 1) as nat);
        lemma_pow2_pos(149);
        if d < 32 {
            lemma_pow2_strictly_increases((d - 1) as nat, 31);
        }
    }
    if not_a_number(s) {
        return 0;
    }
    let top: u64 = crate::rounding::power_of_two(d - 1);
    let u: u32 = s % 0x8000_0000;
    let m: u64 = if u >= ONE {
        proof {
            assert(unsigned(ONE) == ONE);
            assert(cut_at_one(s) == unit());
            lemma_div_multiples_vanish(top as int, unit() as int);
            lemma_mul_is_commutative(top as int, unit() as int);
        }
        top
    } else {
        let (q, e): (u64, u32) = take_apart(s);
        proof {
            lemma_pow2_adds(e as nat, (d - 1) as nat);
            assert(q * pow2((e + d - 1) as nat) == magnitude(s) * pow2((d - 1) as nat)) by (nonlinear_arith)
                requires
                    pow2((e + d - 1) as nat) == pow2(e as nat) * pow2((d - 1) as nat),
                    magnitude(s) == q * pow2(e as nat),
            ;
            let x = magnitude(s) * pow2((d - 1) as nat);
            assert(x < unit() * top) by (nonlinear_arith)
                requires
                    x == magnitude(s) * top,
                    magnitude(s) < unit(),
                    top > 0,
            ;
            lemma_fundamental_div_mod(x as int, unit() as int);
            lemma_mod_bound(x as int, unit() as int);
            if x / unit() >= top {
                assert(unit() * (x / unit()) >= unit() * top) by (nonlinear_arith)
                    requires
                        x / unit() >= top,
                ;
            }
        }
        let (w, _x): (u64, bool) = shift_down(q, e + d - 1, 149);
        w
    };
    if s >= 0x8000_0000 {
        if m == 0x8000_0000 {
            i32::MIN
        } else {
            -(m as i32)
        }
    } else if m >= top {
        (top - 1) as i32
    } else {
        m as i32
    }
}

/// The sample of a code of depth `d`.
pub fn dequantise(v: i32, d: u32) -> (b: Bits)
    requires
        1 <= d <= 32,
    ensures
        is_sample(b, v as int, d as nat),
{
    let a: u64 = if v < 0 {
        (-(v as i64)) as u64
    } else {
        v as u64
    };
    let (q, k): (u64, u32) = round_to(a as u128, 24);
    proof {
        lemma2_to64();
        lemma_bit_len(a as nat);
        if bit_len(a as nat) > 33 {
            lemma_pow2_strictly_increases(32, (bit_len(a as nat) - 1) as nat);
        }
        lemma_pow2_adds(k as nat, (150 - d) as nat);
        assert(q * pow2((k + 150 - d) as nat) == (q * pow2(k as nat)) * pow2((150 - d) as nat)) by (nonlinear_arith)
            requires
                pow2((k + 150 - d) as nat) == pow2(k as nat) * pow2((150 - d) as nat),
        ;
    }
    let m: u32 = encode(q, k + 150 - d);
    if v < 0 {
        m + 0x8000_0000
    } else {
        m
    }
}

/// Storing a code as a sample and quantising it again gives the code back, at
/// every depth up to 24 bits.
pub proof fn law_code_round_trip(b: Bits, v: int, d: nat)
    requires
        1 <= d <= 24,
        -pow2((d - 1) as nat) <= v < pow2((d - 1) as nat),
        is_sample(b, v, d),
    ensures
        code_of(b, d) == v,
{
    lemma2_to64();
    let top = pow2((d - 1) as nat);
    if d < 24 {
        lemma_pow2_strictly_increases((d - 1) as nat, 23);
    }
    let a = abs(v);
    lemma_bit_len(a);
    if bit_len(a) > 24 {
        if bit_len(a) - 1 > 24 {
            lemma_pow2_strictly_increases(24, (bit_len(a) - 1) as nat);
        }
    }
    lemma_nearest_bounds(a, 24);
    let s = pow2((150 - d) as nat);
    lemma_pow2_adds((150 - d) as nat, (d - 1) as nat);
    lemma_pow2_pos((150 - d) as nat);
    lemma_pow2_pos(149);
    assert(magnitude(b) == a * s);
    assert(magnitude(b) <= unit()) by (nonlinear_arith)
        requires
            magnitude(b) == a * s,
            a <= top,
            unit() == s * top,
    ;
    assert((a * s) * top == unit() * a) by (nonlinear_arith)
        requires
            unit() == s * top,
    ;
    lemma_div_multiples_vanish(a as int, unit() as int);
    assert(cut_at_one(b) == a * s);
    assert(!is_nan(b));
}

} // verus!
