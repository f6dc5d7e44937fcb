//! Whole numbers in bytes, most or least significant byte first.

use vstd::prelude::*;

verus! {

/// The number written by `s`, most significant byte first.
pub open spec fn big_endian(s: Seq<u8>) -> nat
    decreases s.len(),
{
    if s.len() == 0 {
        0
    } else {
        256 * big_endian(s.drop_last()) + s.last() as nat
    }
}

/// The number written by `s`, least significant byte first.
pub open spec fn little_endian(s: Seq<u8>) -> nat
    decreases s.len(),
{
    if s.len() == 0 {
        0
    } else {
        s[0] as nat + 256 * little_endian(s.skip(1))
    }
}

/// The `n` low bytes of `x`, most significant byte first.
pub open spec fn to_big_endian(x: nat, n: nat) -> Seq<u8>
    decreases n,
{
    if n == 0 {
        Seq::empty()
    } else {
        to_big_endian(x / 256, (n - 1) as nat).push((x % 256) as u8)
    }
}

pub proof fn lemma_to_big_endian_len(x: nat, n: nat)
    ensures
        to_big_endian(x, n).len() == n,
    decreases n,
{
    if n > 0 {
        lemma_to_big_endian_len(x / 256, (n - 1) as nat);
    }
}

/// Reading back the bytes of a number gives the number, up to what fits.
pub proof fn lemma_big_endian_round_trip(x: nat, n: nat)
    ensures
        big_endian(to_big_endian(x, n)) == x % vstd::arithmetic::power::pow(256, n) as nat,
    decreases n,
{
    use_pow_unfold(n);
    if n > 0 {
        let m = (n - 1) as nat;
        lemma_big_endian_round_trip(x / 256, m);
        let s = to_big_endian(x / 256, m);
        assert(s.push((x % 256) as u8).drop_last() =~= s);
        let p = vstd::arithmetic::power::pow(256, m);
        vstd::arithmetic::power::lemma_pow_positive(256, m);
        vstd::arithmetic::div_mod::lemma_mod_breakdown(x as int, 256, p);
        assert((x / 256) as int % p == ((x / 256) % (p as nat)) as int);
    } else {
        assert(x % 1 == 0);
    }
}

proof fn use_pow_unfold(n: nat)
    ensures
        n > 0 ==> vstd::arithmetic::power::pow(256, n) == 256 * vstd::arithmetic::power::pow(
            256,
            (n - 1) as nat,
        ),
        vstd::arithmetic::power::pow(256, 0) == 1,
{
    vstd::arithmetic::power::lemma_pow0(256);
    if n > 0 {
        reveal(vstd::arithmetic::power::pow);
    }
}

pub proof fn lemma_big_endian_two(s: Seq<u8>)
    requires
        s.len() == 2,
    ensures
        big_endian(s) == 256 * (s[0] as nat) + s[1] as nat,
{
    reveal_with_fuel(big_endian, 3);
}

pub proof fn lemma_big_endian_four(s: Seq<u8>)
    requires
        s.len() == 4,
    ensures
        big_endian(s) == 0x100_0000 * (s[0] as nat) + 0x1_0000 * (s[1] as nat) + 256 * (s[2] as nat)
            + s[3] as nat,
        big_endian(s) <= u32::MAX,
{
    reveal_with_fuel(big_endian, 5);
}

/// The first two bytes as a big-endian number.
pub fn be_u16(b: &[u8]) -> (r: u16)
    requires
        b@.len() >= 2,
    ensures
        r == big_endian(b@.take(2)),
{
    proof {
        lemma_big_endian_two(b@.take(2));
    }
    b[0] as u16 * 256 + b[1] as u16
}

/// The first four bytes as a big-endian number.
pub fn be_u32(b: &[u8]) -> (r: u32)
    requires
        b@.len() >= 4,
    ensures
        r == big_endian(b@.take(4)),
{
    proof {
        lemma_big_endian_four(b@.take(4));
    }
    b[0] as u32 * 0x100_0000 + b[1] as u32 * 0x1_0000 + b[2] as u32 * 256 + b[3] as u32
}

/// Appends the `n` low bytes of `x`, most significant first.
pub fn push_big_endian(out: &mut Vec<u8>, x: u64, n: usize)
    requires
        n <= 8,
    ensures
        final(out)@ == old(out)@ + to_big_endian(x as nat, n as nat),
    decreases n,
{
    if n == 0 {
        proof {
            assert(old(out)@ + to_big_endian(x as nat, 0) =~= old(out)@);
        }
    } else {
        push_big_endian(out, x / 256, n - 1);
        let low: u8 = (x % 256) as u8;
        out.push(low);
        proof {
            let head = to_big_endian((x / 256) as nat, (n - 1) as nat);
            assert(old(out)@ + head.push(low) =~= (old(out)@ + head).push(low));
        }
    }
}

} // verus!
