//! Sample rates as 80-bit extended-precision numbers, the form in which an
//! AIFF file holds them.
//!
//! The ten bytes are a sign bit, a 15-bit exponent biased by 16383, and a
//! 64-bit significand whose leading bit is explicit.

use vstd::prelude::*;
use vstd::arithmetic::power2::*;
use vstd::arithmetic::power::pow;
use vstd::arithmetic::div_mod::*;
use vstd::arithmetic::mul::*;
use crate::bytes::{big_endian, to_big_endian, push_big_endian, lemma_to_big_endian_len, lemma_big_endian_round_trip};
use crate::rounding::{nearest, bit_len, bit_length, power_of_two, round_to};
use crate::rounding::{lemma_bit_len, lemma_nearest_bounds, lemma_nearest_scaled};

verus! {

/// A number cut at the greatest 32-bit rate.
pub open spec fn at_most_rate(x: nat) -> nat {
    if x > u32::MAX {
        u32::MAX as nat
    } else {
        x
    }
}

/// The rate that sign, exponent and significand stand for, brought to a
/// 53-bit significand and cut to a whole number of frames per second. Negative
/// rates count as zero; the exponent of infinity counts as the greatest rate.
pub open spec fn rate_of(minus: bool, exponent: nat, mantissa: nat) -> nat {
    let m = nearest(mantissa, 53);
    if exponent == 0 && mantissa == 0 {
        0
    } else if exponent == 0x7fff {
        u32::MAX as nat
    } else if minus {
        0
    } else if exponent >= 16446 {
        at_most_rate(m * pow2((exponent - 16446) as nat))
    } else {
        at_most_rate(m / pow2((16446 - exponent) as nat))
    }
}

/// The rate written in ten bytes.
pub open spec fn extended_rate(b: Seq<u8>) -> nat {
    rate_of(
        b[0] >= 128,
        big_endian(b.take(2)) % 0x8000,
        big_endian(b.subrange(2, 10)),
    )
}

/// The ten bytes of a rate: the significand is shifted until its leading bit
/// is set.
pub open spec fn extended_bytes(rate: nat) -> Seq<u8> {
    if rate == 0 {
        to_big_endian(0, 2) + to_big_endian(0, 8)
    } else {
        to_big_endian(bit_len(rate) + 16382, 2) + to_big_endian(
            rate * pow2((64 - bit_len(rate)) as nat),
            8,
        )
    }
}

/// The eight bytes from `at` on as a big-endian number.
pub fn be_u64_at(b: &[u8], at: usize) -> (r: u64)
    requires
        at + 8 <= b@.len(),
    ensures
        r == big_endian(b@.subrange(at as int, at + 8)),
{
    let len: usize = b.len();
    let mut r: u64 = 0;
    let mut i: usize = 0;
    proof {
        assert(b@.subrange(at as int, at as int) =~= Seq::empty());
        vstd::arithmetic::power::lemma_pow0(256);
        lemma_pow256();
    }
    while i < 8
        invariant
            i <= 8,
            at + 8 <= len == b@.len(),
            r == big_endian(b@.subrange(at as int, at + i)),
            r < pow(256, i as nat),
            pow(256, 8) == 0x1_0000_0000_0000_0000,
            forall|k: nat| k < 8 ==> #[trigger] pow(256, k) <= 0x100_0000_0000_0000,
            forall|k: nat| k < 8 ==> pow(256, k + 1) == 256 * #[trigger] pow(256, k),
        decreases 8 - i,
    {
        proof {
            assert(b@.subrange(at as int, at + i + 1).drop_last() =~= b@.subrange(at as int, at + i));
            assert(pow(256, i as nat) <= 0x100_0000_0000_0000);
            assert(pow(256, (i + 1) as nat) == 256 * pow(256, i as nat));
        }
        r = r * 256 + b[at + i] as u64;
        i = i + 1;
    }
    r
}

proof fn lemma_pow256()
    ensures
        pow(256, 2) == 0x1_0000,
        pow(256, 4) == 0x1_0000_0000,
        pow(256, 8) == 0x1_0000_0000_0000_0000,
        forall|k: nat| k < 8 ==> #[trigger] pow(256, k) <= 0x100_0000_0000_0000,
        forall|k: nat| k < 8 ==> pow(256, k + 1) == 256 * #[trigger] pow(256, k),
{
    reveal_with_fuel(pow, 9);
    assert(pow(256, 0) == 1);
    assert(pow(256, 1) == 0x100);
    assert(pow(256, 2) == 0x1_0000);
    assert(pow(256, 3) == 0x100_0000);
    assert(pow(256, 4) == 0x1_0000_0000);
    assert(pow(256, 5) == 0x100_0000_0000);
    assert(pow(256, 6) == 0x1_0000_0000_0000);
    assert(pow(256, 7) == 0x100_0000_0000_0000);
    assert(pow(256, 8) == 0x1_0000_0000_0000_0000);
}

/// Reads an extended-precision sample rate as a whole number.
pub fn parse_extended_f80(b: &[u8]) -> (rate: u32)
    requires
        b@.len() >= 10,
    ensures
        rate == extended_rate(b@),
{
    let minus: bool = b[0] >= 128;
    let exponent: u32 = (b[0] as u32 % 128) * 256 + b[1] as u32;
    let mantissa: u64 = be_u64_at(b, 2);
    proof {
        crate::bytes::lemma_big_endian_two(b@.take(2));
        assert((256 * (b@[0] as nat) + b@[1] as nat) % 0x8000 == exponent);
        lemma2_to64();
    }
    if exponent == 0 && mantissa == 0 {
        return 0;
    }
    if exponent == 0x7fff {
        return u32::MAX;
    }
    if minus {
        return 0;
    }
    let (q, k): (u64, u32) = round_to(mantissa as u128, 53);
    proof {
        lemma_bit_len(mantissa as nat);
        if bit_len(mantissa as nat) > 64 {
            if bit_len(mantissa as nat) - 1 > 64 {
                lemma_pow2_strictly_increases(64, (bit_len(mantissa as nat) - 1) as nat);
            }
        }
        lemma2_to64_rest();
        if k < 11 {
            lemma_pow2_strictly_increases(k as nat, 11);
        }
        assert(q * pow2(k as nat) <= 0x20_0000_0000_0000 * 2048) by (nonlinear_arith)
            requires
                q <= 0x20_0000_0000_0000,
                pow2(k as nat) <= 2048,
        ;
    }
    let p: u64 = power_of_two(k);
    let m: u128 = q as u128 * p as u128;
    assert(m == nearest(mantissa as nat, 53));
    if exponent >= 16446 {
        let d: u32 = exponent - 16446;
        if m == 0 {
            assert(0 * pow2(d as nat) == 0);
            0
        } else if d >= 32 {
            proof {
                if d > 32 {
                    lemma_pow2_strictly_increases(32, d as nat);
                }
                assert(m * pow2(d as nat) >= pow2(32)) by (nonlinear_arith)
                    requires
                        m >= 1,
                        pow2(d as nat) >= pow2(32),
                ;
            }
            u32::MAX
        } else {
            proof {
                if d < 31 {
                    lemma_pow2_strictly_increases(d as nat, 31);
                }
                assert(m * pow2(d as nat) <= 0x1_0000_0000_0000_0000 * 0x8000_0000) by (nonlinear_arith)
                    requires
                        m <= 0x1_0000_0000_0000_0000,
                        pow2(d as nat) <= 0x8000_0000,
                ;
            }
            let v: u128 = m * power_of_two(d) as u128;
            if v > u32::MAX as u128 {
                u32::MAX
            } else {
                v as u32
            }
        }
    } else {
        let d: u32 = 16446 - exponent;
        if d > 64 {
            proof {
                lemma_pow2_strictly_increases(64, d as nat);
                lemma_basic_div(m as int, pow2(d as nat) as int);
            }
            0
        } else if d == 64 {
            proof {
                assert(m as nat / pow2(64) <= 1) by {
                    lemma_fundamental_div_mod(m as int, pow2(64) as int);
                    lemma_mod_bound(m as int, pow2(64) as int);
                }
            }
            let v: u128 = m / 0x1_0000_0000_0000_0000u128;
            v as u32
        } else {
            let v: u128 = m / power_of_two(d) as u128;
            if v > u32::MAX as u128 {
                u32::MAX
            } else {
                v as u32
            }
        }
    }
}

/// Writes a sample rate in extended precision.
pub fn write_extended_f80(rate: u32) -> (b: Vec<u8>)
    ensures
        b@ == extended_bytes(rate as nat),
        b@.len() == 10,
{
    let mut out: Vec<u8> = Vec::new();
    proof {
        lemma2_to64();
        lemma_bit_len(rate as nat);
        if bit_len(rate as nat) > 32 {
            if bit_len(rate as nat) - 1 > 32 {
                lemma_pow2_strictly_increases(32, (bit_len(rate as nat) - 1) as nat);
            }
        }
    }
    if rate == 0 {
        push_big_endian(&mut out, 0, 2);
        push_big_endian(&mut out, 0, 8);
        proof {
            lemma_to_big_endian_len(0, 2);
            lemma_to_big_endian_len(0, 8);
            assert(out@ =~= extended_bytes(0));
        }
        return out;
    }
    let n: u32 = bit_length(rate as u128);
    proof {
        lemma_pow2_adds(n as nat, (64 - n) as nat);
        lemma_pow2_pos((64 - n) as nat);
        assert(rate * pow2((64 - n) as nat) < pow2(64)) by (nonlinear_arith)
            requires
                rate < pow2(n as nat),
                pow2((64 - n) as nat) > 0,
                pow2(64) == pow2(n as nat) * pow2((64 - n) as nat),
        ;
    }
    let mantissa: u64 = rate as u64 * power_of_two(64 - n);
    push_big_endian(&mut out, n as u64 + 16382, 2);
    push_big_endian(&mut out, mantissa, 8);
    proof {
        lemma_to_big_endian_len((n + 16382) as nat, 2);
        lemma_to_big_endian_len(mantissa as nat, 8);
        assert(out@ =~= extended_bytes(rate as nat));
    }
    out
}

/// Every 32-bit sample rate survives being written and read back.
pub proof fn law_rate_round_trip(rate: u32)
    ensures
        extended_rate(extended_bytes(rate as nat)) == rate,
{
    lemma2_to64();
    lemma_pow256();
    let r = rate as nat;
    lemma_bit_len(r);
    if bit_len(r) > 32 {
        if bit_len(r) - 1 > 32 {
            lemma_pow2_strictly_increases(32, (bit_len(r) - 1) as nat);
        }
    }
    let n = bit_len(r);
    let e = if r == 0 { 0 } else { n + 16382 };
    let m = if r == 0 { 0 } else { r * pow2((64 - n) as nat) };
    let b = extended_bytes(r);
    lemma_to_big_endian_len(e, 2);
    lemma_to_big_endian_len(m, 8);
    lemma_big_endian_round_trip(e, 2);
    lemma_big_endian_round_trip(m, 8);
    assert(b.take(2) =~= to_big_endian(e, 2));
    assert(b.subrange(2, 10) =~= to_big_endian(m, 8));
    crate::bytes::lemma_big_endian_two(b.take(2));
    if r > 0 {
        lemma_pow2_adds(n, (64 - n) as nat);
        lemma_pow2_pos((64 - n) as nat);
        assert(m < pow2(64)) by (nonlinear_arith)
            requires
                m == r * pow2((64 - n) as nat),
                r < pow2(n),
                pow2((64 - n) as nat) > 0,
                pow2(64) == pow2(n) * pow2((64 - n) as nat),
        ;
        lemma_small_mod(m, 0x1_0000_0000_0000_0000);
        lemma_nearest_scaled(r, (64 - n) as nat, 53);
        lemma_nearest_bounds(r, 53);
        lemma_div_multiples_vanish(r as int, pow2((64 - n) as nat) as int);
        lemma_mul_is_commutative(r as int, pow2((64 - n) as nat) as int);
    }
}

} // verus!
