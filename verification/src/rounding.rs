//! Round-to-nearest-even on whole numbers.
//!
//! Binary floating point keeps the leading `p` bits of a result and rounds the
//! rest to nearest, ties to even. Times, sample rates and percentiles pass
//! through such a rounding before they become frame numbers, so it is stated
//! here once, over unbounded integers.

use vstd::prelude::*;
use vstd::arithmetic::power2::*;
use vstd::arithmetic::div_mod::*;
use vstd::arithmetic::mul::*;

verus! {

/// The number of binary digits of `x`; zero has none.
pub open spec fn bit_len(x: nat) -> nat
    decreases x,
{
    if x == 0 {
        0
    } else {
        1 + bit_len(x / 2)
    }
}

/// The spacing of `p`-bit numbers around `x`.
pub open spec fn spacing(x: nat, p: nat) -> nat {
    if bit_len(x) <= p {
        1
    } else {
        pow2((bit_len(x) - p) as nat)
    }
}

/// `num / den` rounded to `p` significant bits, never finer than a whole
/// number: to the nearest multiple of the spacing, ties to the even multiple.
pub open spec fn nearest_ratio(num: nat, den: nat, p: nat) -> nat {
    let u = spacing(num / den, p);
    let t = den * u;
    let q = num / t;
    let r = num % t;
    if 2 * r > t || (2 * r == t && q % 2 == 1) {
        (q + 1) * u
    } else {
        q * u
    }
}

/// `x` rounded to `p` significant bits, ties to even.
pub open spec fn nearest(x: nat, p: nat) -> nat {
    nearest_ratio(x, 1, p)
}

pub proof fn lemma_bit_len(x: nat)
    ensures
        x < pow2(bit_len(x)),
        x > 0 ==> bit_len(x) >= 1 && pow2((bit_len(x) - 1) as nat) <= x,
    decreases x,
{
    lemma_pow2_unfold(1);
    lemma2_to64();
    if x > 0 {
        lemma_bit_len(x / 2);
        lemma_pow2_unfold(bit_len(x));
        if x / 2 > 0 {
            lemma_pow2_unfold((bit_len(x) - 1) as nat);
        }
    }
}

/// The number of binary digits is pinned by the two powers around `x`.
pub proof fn lemma_bit_len_unique(x: nat, n: nat)
    requires
        n >= 1,
        pow2((n - 1) as nat) <= x < pow2(n),
    ensures
        bit_len(x) == n,
{
    lemma_bit_len(x);
    lemma_pow2_pos((n - 1) as nat);
    if bit_len(x) < n {
        if bit_len(x) < n - 1 {
            lemma_pow2_strictly_increases(bit_len(x), (n - 1) as nat);
        }
    } else if bit_len(x) > n {
        if bit_len(x) - 1 > n {
            lemma_pow2_strictly_increases(n, (bit_len(x) - 1) as nat);
        }
    }
}

pub proof fn lemma_bit_len_monotone(x: nat, y: nat)
    requires
        x <= y,
    ensures
        bit_len(x) <= bit_len(y),
{
    lemma_bit_len(x);
    lemma_bit_len(y);
    if bit_len(x) > bit_len(y) {
        if bit_len(x) - 1 > bit_len(y) {
            lemma_pow2_strictly_increases(bit_len(y), (bit_len(x) - 1) as nat);
        }
    }
}

pub proof fn lemma_bit_len_scaled(x: nat, k: nat)
    requires
        x > 0,
    ensures
        bit_len(x * pow2(k)) == bit_len(x) + k,
{
    lemma_bit_len(x);
    let n = bit_len(x);
    lemma_pow2_adds((n - 1) as nat, k);
    lemma_pow2_adds(n, k);
    lemma_pow2_pos(k);
    assert(pow2((n - 1) as nat) * pow2(k) <= x * pow2(k)) by (nonlinear_arith)
        requires
            pow2((n - 1) as nat) <= x,
            pow2(k) > 0,
    ;
    assert(x * pow2(k) < pow2(n) * pow2(k)) by (nonlinear_arith)
        requires
            x < pow2(n),
            pow2(k) > 0,
    ;
    lemma_bit_len_unique(x * pow2(k), n + k);
}

/// Facts about one rounding: the quotient by the spacing keeps `p` bits.
pub proof fn lemma_nearest_bounds(x: nat, p: nat)
    requires
        p >= 1,
    ensures
        spacing(x, p) > 0,
        x / spacing(x, p) < pow2(p),
        bit_len(x) > p ==> x / spacing(x, p) >= pow2((p - 1) as nat),
        nearest(x, p) == (x / spacing(x, p)) * spacing(x, p) || nearest(x, p) == (x / spacing(x, p) + 1)
            * spacing(x, p),
        nearest(x, p) >= (x / spacing(x, p)) * spacing(x, p),
        bit_len(x) <= p ==> nearest(x, p) == x,
{
    lemma_bit_len(x);
    let n = bit_len(x);
    let u = spacing(x, p);
    let q = x / u;
    assert(x / 1 == x);
    assert(1 * u == u);
    lemma_pow2_pos(p);
    if n > p {
        let k = (n - p) as nat;
        lemma_pow2_pos(k);
        lemma_pow2_adds(p, k);
        lemma_pow2_adds((p - 1) as nat, k);
        assert(q < pow2(p)) by {
            lemma_fundamental_div_mod(x as int, u as int);
            if q >= pow2(p) {
                assert(u * q >= u * pow2(p)) by (nonlinear_arith)
                    requires
                        q >= pow2(p),
                        u > 0,
                ;
                lemma_mul_is_commutative(u as int, pow2(p) as int);
            }
        }
        assert(q >= pow2((p - 1) as nat)) by {
            lemma_fundamental_div_mod(x as int, u as int);
            lemma_mod_bound(x as int, u as int);
            if q < pow2((p - 1) as nat) {
                assert(u * q + u <= u * pow2((p - 1) as nat)) by (nonlinear_arith)
                    requires
                        q + 1 <= pow2((p - 1) as nat),
                        u > 0,
                ;
                lemma_mul_is_commutative(u as int, pow2((p - 1) as nat) as int);
            }
        }
    } else {
        assert(x % 1 == 0);
        assert(x / 1 * 1 == x);
        if n < p {
            lemma_pow2_strictly_increases(n, p);
        }
    }
    assert((q + 1) * u >= q * u) by (nonlinear_arith);
}

/// Rounding keeps order.
pub proof fn lemma_nearest_monotone(x: nat, y: nat, p: nat)
    requires
        x <= y,
        p >= 1,
    ensures
        nearest(x, p) <= nearest(y, p),
{
    lemma_nearest_bounds(x, p);
    lemma_nearest_bounds(y, p);
    lemma_bit_len_monotone(x, y);
    let ux = spacing(x, p);
    let uy = spacing(y, p);
    let qx = x / ux;
    let qy = y / uy;
    if bit_len(y) <= p {
    } else if bit_len(x) == bit_len(y) {
        assert(1 * ux == ux);
        assert(x / 1 == x && y / 1 == y);
        lemma_div_is_ordered(x as int, y as int, ux as int);
        lemma_fundamental_div_mod(x as int, ux as int);
        lemma_fundamental_div_mod(y as int, ux as int);
        assert((qx + 1) * ux >= qx * ux) by (nonlinear_arith);
        if qx < qy {
            assert((qx + 1) * ux <= qy * ux) by (nonlinear_arith)
                requires
                    qx + 1 <= qy,
            ;
        } else {
            assert(ux * qx == ux * qy);
            assert(x % ux <= y % ux);
        }
    } else {
        // x lies below a power of two, y at or above it
        lemma_bit_len(x);
        lemma_bit_len(y);
        let n = bit_len(x);
        let m = bit_len(y);
        assert(pow2(n) <= nearest(y, p)) by {
            let k = (m - p) as nat;
            lemma_pow2_adds((p - 1) as nat, k);
            assert(qy * uy >= pow2((p - 1) as nat) * pow2(k)) by (nonlinear_arith)
                requires
                    qy >= pow2((p - 1) as nat),
                    uy == pow2(k),
            ;
            if n < m - 1 {
                lemma_pow2_strictly_increases(n, (m - 1) as nat);
            }
        }
        assert(nearest(x, p) <= pow2(n)) by {
            if n > p {
                let k = (n - p) as nat;
                lemma_pow2_adds(p, k);
                assert((qx + 1) * ux <= pow2(p) * pow2(k)) by (nonlinear_arith)
                    requires
                        qx + 1 <= pow2(p),
                        ux == pow2(k),
                ;
                assert((qx + 1) * ux >= qx * ux) by (nonlinear_arith);
            }
        }
    }
}

/// Scaling by a power of two commutes with rounding.
pub proof fn lemma_nearest_scaled(x: nat, k: nat, p: nat)
    requires
        p >= 1,
    ensures
        nearest(x * pow2(k), p) == nearest(x, p) * pow2(k),
{
    lemma_nearest_bounds(x, p);
    lemma_nearest_bounds(x * pow2(k), p);
    lemma_pow2_pos(k);
    let s = pow2(k);
    let y = x * s;
    if x == 0 {
        assert(0 * s == 0);
    } else {
        lemma_bit_len_scaled(x, k);
        let n = bit_len(x);
        let u = spacing(x, p);
        let v = spacing(y, p);
        assert(x / 1 == x && y / 1 == y);
        assert(1 * u == u && 1 * v == v);
        if n > p {
            lemma_pow2_adds((n - p) as nat, k);
            assert(v == u * s);
            // y / v == x / u and y % v == (x % u) * s
            lemma_fundamental_div_mod(x as int, u as int);
            lemma_mod_bound(x as int, u as int);
            let q = x / u;
            let r = x % u;
            assert(y == v * q + r * s) by (nonlinear_arith)
                requires
                    y == x * s,
                    x == u * q + r,
                    v == u * s,
            ;
            assert(0 <= r * s < v) by (nonlinear_arith)
                requires
                    0 <= r < u,
                    v == u * s,
                    s > 0,
            ;
            lemma_fundamental_div_mod_converse(y as int, v as int, q as int, (r * s) as int);
            assert(y / v == q && y % v == r * s);
            assert((2 * r > u) == (2 * (r * s) > v)) by (nonlinear_arith)
                requires
                    v == u * s,
                    s > 0,
            ;
            assert((2 * r == u) == (2 * (r * s) == v)) by (nonlinear_arith)
                requires
                    v == u * s,
                    s > 0,
            ;
            assert((q + 1) * v == ((q + 1) * u) * s) by (nonlinear_arith)
                requires
                    v == u * s,
            ;
            assert(q * v == (q * u) * s) by (nonlinear_arith)
                requires
                    v == u * s,
            ;
        } else if n + k > p {
            // x itself is kept, and the spacing of y divides the scale
            let e = (n + k - p) as nat;
            lemma_pow2_adds(e, (k - e) as nat);
            lemma_pow2_pos(e);
            let w = pow2((k - e) as nat);
            assert((x * w) * v == y) by (nonlinear_arith)
                requires
                    y == x * s,
                    s == v * w,
            ;
            lemma_fundamental_div_mod_converse(y as int, v as int, (x * w) as int, 0);
        } else {
        }
    }
}

/// `2^k` as a machine number.
pub fn power_of_two(k: u32) -> (r: u64)
    requires
        k < 64,
    ensures
        r == pow2(k as nat),
        r > 0,
{
    proof {
        vstd::bits::lemma_u64_pow2_no_overflow(k as nat);
        vstd::bits::lemma_u64_shl_is_mul(1, k as u64);
        lemma_pow2_pos(k as nat);
    }
    1u64 << (k as u64)
}

/// The number of binary digits of `x`.
pub fn bit_length(x: u128) -> (n: u32)
    ensures
        n == bit_len(x as nat),
        n <= 128,
{
    let mut y: u128 = x;
    let mut n: u32 = 0;
    proof {
        lemma_bit_len(x as nat);
        assert(pow2(128) == 0x1_0000_0000_0000_0000_0000_0000_0000_0000) by {
            lemma2_to64();
            lemma_pow2_adds(64, 64);
            assert(0x1_0000_0000_0000_0000 * 0x1_0000_0000_0000_0000
                == 0x1_0000_0000_0000_0000_0000_0000_0000_0000int) by (nonlinear_arith);
        }
        if bit_len(x as nat) > 128 {
            if bit_len(x as nat) - 1 > 128 {
                lemma_pow2_strictly_increases(128, (bit_len(x as nat) - 1) as nat);
            }
        }
    }
    while y > 0
        invariant
            n + bit_len(y as nat) == bit_len(x as nat),
            bit_len(x as nat) <= 128,
        decreases y,
    {
        y = y / 2;
        n = n + 1;
    }
    n
}

/// Where the quotient has at least `p` bits, scaling the numerator by a power
/// of two scales the rounded ratio.
pub proof fn lemma_ratio_scaled(num: nat, den: nat, j: nat, p: nat)
    requires
        den > 0,
        p >= 1,
        bit_len(num / den) >= p,
    ensures
        nearest_ratio(num * pow2(j), den, p) == nearest_ratio(num, den, p) * pow2(j),
{
    let s = pow2(j);
    lemma_pow2_pos(j);
    let n = bit_len(num / den);
    let q0 = num / den;
    lemma_bit_len(q0);
    lemma_fundamental_div_mod(num as int, den as int);
    lemma_mod_bound(num as int, den as int);
    let big = num * s;
    // the quotient of the scaled numerator has j more bits
    assert(bit_len(big / den) == n + j) by {
        lemma_fundamental_div_mod(big as int, den as int);
        lemma_mod_bound(big as int, den as int);
        let qb = big / den;
        assert(q0 > 0);
        lemma_pow2_adds((n - 1) as nat, j);
        lemma_pow2_adds(n, j);
        assert(q0 * s <= qb) by {
            assert(big >= den * (q0 * s)) by (nonlinear_arith)
                requires
                    big == num * s,
                    num >= den * q0,
            ;
            if qb < q0 * s {
                assert(den * (qb + 1) <= den * (q0 * s)) by (nonlinear_arith)
                    requires
                        qb + 1 <= q0 * s,
                        den > 0,
                ;
                assert(den * (qb + 1) == den * qb + den) by (nonlinear_arith);
            }
        }
        assert(qb < (q0 + 1) * s) by {
            assert(big < den * ((q0 + 1) * s)) by (nonlinear_arith)
                requires
                    big == num * s,
                    num < den * q0 + den,
                    s > 0,
            ;
            if qb >= (q0 + 1) * s {
                assert(den * qb >= den * ((q0 + 1) * s)) by (nonlinear_arith)
                    requires
                        qb >= (q0 + 1) * s,
                        den > 0,
                ;
            }
        }
        assert(pow2((n - 1) as nat) * s <= q0 * s) by (nonlinear_arith)
            requires
                pow2((n - 1) as nat) <= q0,
        ;
        assert((q0 + 1) * s <= pow2(n) * s) by (nonlinear_arith)
            requires
                q0 + 1 <= pow2(n),
        ;
        lemma_bit_len_unique(qb, n + j);
    }
    let u = spacing(num / den, p);
    let v = spacing(big / den, p);
    assert(v == u * s && u > 0) by {
        if n == p {
            if j > 0 {
                assert(1 * s == s);
            } else {
                lemma2_to64();
            }
        } else {
            lemma_pow2_adds((n - p) as nat, j);
            lemma_pow2_pos((n - p) as nat);
        }
    }
    let t = den * u;
    assert(t > 0) by (nonlinear_arith)
        requires
            den > 0,
            u > 0,
            t == den * u,
    ;
    assert(den * v == t * s) by (nonlinear_arith)
        requires
            t == den * u,
            v == u * s,
    ;
    lemma_ratio_step(num, t, s, den * v, u, v);
}

/// Multiplying numerator and denominator by the same number changes nothing.
pub proof fn lemma_ratio_cancel(num: nat, den: nat, c: nat, p: nat)
    requires
        den > 0,
        c > 0,
    ensures
        nearest_ratio(num * c, den * c, p) == nearest_ratio(num, den, p),
{
    lemma_fundamental_div_mod(num as int, den as int);
    lemma_mod_bound(num as int, den as int);
    let q = num / den;
    let r = num % den;
    assert(num * c == q * (den * c) + r * c) by (nonlinear_arith)
        requires
            num == den * q + r,
    ;
    assert(0 <= r * c < den * c) by (nonlinear_arith)
        requires
            0 <= r < den,
            c > 0,
    ;
    lemma_fundamental_div_mod_converse((num * c) as int, (den * c) as int, q as int, (r * c) as int);
    let u = spacing(q, p);
    assert(u > 0) by {
        if bit_len(q) > p {
            lemma_pow2_pos((bit_len(q) - p) as nat);
        }
    }
    let t = den * u;
    assert(t > 0) by (nonlinear_arith)
        requires
            den > 0,
            u > 0,
            t == den * u,
    ;
    assert((den * c) * u == t * c) by (nonlinear_arith)
        requires
            t == den * u,
    ;
    assert(u * 1 == u);
    let w = (den * c) * u;
    lemma_fundamental_div_mod(num as int, t as int);
    lemma_mod_bound(num as int, t as int);
    let k = num / t;
    let m = num % t;
    assert(num * c == w * k + m * c) by (nonlinear_arith)
        requires
            num == t * k + m,
            w == t * c,
    ;
    assert(0 <= m * c < w) by (nonlinear_arith)
        requires
            0 <= m < t,
            c > 0,
            w == t * c,
    ;
    lemma_fundamental_div_mod_converse((num * c) as int, w as int, k as int, (m * c) as int);
    assert((2 * m > t) == (2 * (m * c) > w)) by (nonlinear_arith)
        requires
            w == t * c,
            c > 0,
    ;
    assert((2 * m == t) == (2 * (m * c) == w)) by (nonlinear_arith)
        requires
            w == t * c,
            c > 0,
    ;
}

/// Facts about one rounded ratio: the quotient by the spacing keeps `p` bits.
pub proof fn lemma_ratio_bounds(num: nat, den: nat, p: nat)
    requires
        den > 0,
        p >= 1,
    ensures
        ({
            let x = num / den;
            let u = spacing(x, p);
            let q = num / (den * u);
            &&& u > 0
            &&& q == x / u
            &&& q < pow2(p)
            &&& bit_len(x) > p ==> q >= pow2((p - 1) as nat)
            &&& nearest_ratio(num, den, p) == q * u || nearest_ratio(num, den, p) == (q + 1) * u
        }),
{
    let x = num / den;
    lemma_nearest_bounds(x, p);
    let u = spacing(x, p);
    lemma_div_denominator(num as int, den as int, u as int);
}

/// Rounded ratios keep the order of their numerators.
pub proof fn lemma_ratio_monotone(a: nat, b: nat, den: nat, p: nat)
    requires
        a <= b,
        den > 0,
        p >= 1,
    ensures
        nearest_ratio(a, den, p) <= nearest_ratio(b, den, p),
{
    lemma_ratio_bounds(a, den, p);
    lemma_ratio_bounds(b, den, p);
    let x = a / den;
    let y = b / den;
    lemma_div_is_ordered(a as int, b as int, den as int);
    lemma_bit_len_monotone(x, y);
    let ux = spacing(x, p);
    let uy = spacing(y, p);
    let qx = a / (den * ux);
    let qy = b / (den * uy);
    if ux == uy {
        let t = den * ux;
        assert(t > 0) by (nonlinear_arith)
            requires
                den > 0,
                ux > 0,
                t == den * ux,
        ;
        lemma_div_is_ordered(a as int, b as int, t as int);
        lemma_fundamental_div_mod(a as int, t as int);
        lemma_fundamental_div_mod(b as int, t as int);
        assert((qx + 1) * ux >= qx * ux) by (nonlinear_arith);
        assert((qy + 1) * ux >= qy * ux) by (nonlinear_arith);
        if qx < qy {
            assert((qx + 1) * ux <= qy * ux) by (nonlinear_arith)
                requires
                    qx + 1 <= qy,
            ;
        } else {
            assert(t * qx == t * qy);
        }
    } else {
        // the quotient of `a` lies below a power of two, that of `b` at or above it
        lemma_bit_len(x);
        lemma_bit_len(y);
        let n = if bit_len(x) <= p {
            p
        } else {
            bit_len(x)
        };
        let m = bit_len(y);
        let k = (m - p) as nat;
        assert(m > p && n < m);
        lemma_pow2_adds((p - 1) as nat, k);
        assert(qy * uy >= pow2((p - 1) as nat) * pow2(k)) by (nonlinear_arith)
            requires
                qy >= pow2((p - 1) as nat),
                uy == pow2(k),
        ;
        assert((qy + 1) * uy >= qy * uy) by (nonlinear_arith);
        if n < m - 1 {
            lemma_pow2_strictly_increases(n, (m - 1) as nat);
        }
        let j = (n - p) as nat;
        lemma_pow2_adds(p, j);
        lemma2_to64();
        assert(ux == pow2(j));
        assert((qx + 1) * ux <= pow2(p) * pow2(j)) by (nonlinear_arith)
            requires
                qx + 1 <= pow2(p),
                ux == pow2(j),
        ;
        assert((qx + 1) * ux >= qx * ux) by (nonlinear_arith);
    }
}

/// A ratio between two whole numbers is rounded to something between their
/// roundings.
pub proof fn lemma_ratio_between(num: nat, den: nat, x: nat, p: nat)
    requires
        den > 0,
        p >= 1,
    ensures
        num <= x * den ==> nearest_ratio(num, den, p) <= nearest(x, p),
        x * den <= num ==> nearest(x, p) <= nearest_ratio(num, den, p),
{
    lemma_ratio_cancel(x, 1, den, p);
    assert(1 * den == den);
    if num <= x * den {
        lemma_ratio_monotone(num, x * den, den, p);
    }
    if x * den <= num {
        lemma_ratio_monotone(x * den, num, den, p);
    }
}

/// A rounded ratio is off by no more than a `2^p`-th of it, or by less than a
/// whole number.
pub proof fn lemma_ratio_error(num: nat, den: nat, p: nat)
    requires
        den > 0,
        p >= 1,
    ensures
        nearest_ratio(num, den, p) * den * pow2(p) <= num * pow2(p) + num + den * pow2(p),
        num * pow2(p) <= nearest_ratio(num, den, p) * den * pow2(p) + num + den * pow2(p),
        bit_len(num / den) >= p ==> nearest_ratio(num, den, p) * den * pow2(p) <= num * pow2(p) + num,
        bit_len(num / den) >= p ==> num * pow2(p) <= nearest_ratio(num, den, p) * den * pow2(p) + num,
{
    lemma_ratio_bounds(num, den, p);
    let x = num / den;
    let u = spacing(x, p);
    let t = den * u;
    let q = num / t;
    let r = num % t;
    let n = nearest_ratio(num, den, p);
    let k = pow2(p);
    lemma_pow2_pos(p);
    lemma_bit_len(x);
    assert(t > 0) by (nonlinear_arith)
        requires
            den > 0,
            u > 0,
            t == den * u,
    ;
    lemma_fundamental_div_mod(num as int, t as int);
    lemma_mod_bound(num as int, t as int);
    assert((q * u) * den == t * q && ((q + 1) * u) * den == t * q + t) by (nonlinear_arith)
        requires
            t == den * u,
    ;
    let err = n * den - num;
    assert(-t <= 2 * err <= t);
    let step = if bit_len(x) >= p {
        lemma_pow2_unfold(p);
        let half = pow2((p - 1) as nat);
        assert(t * half <= num) by {
            if bit_len(x) > p {
                assert(t * half <= t * q) by (nonlinear_arith)
                    requires
                        half <= q,
                        t > 0,
                ;
            } else {
                assert(u == 1 && den * 1 == den);
                lemma_fundamental_div_mod(num as int, den as int);
                assert(den * half <= den * x) by (nonlinear_arith)
                    requires
                        half <= x,
                        den > 0,
                ;
            }
        }
        assert(t * k == 2 * (t * half)) by (nonlinear_arith)
            requires
                k == 2 * half,
        ;
        num
    } else {
        assert(t == den);
        den * k
    };
    assert(-step <= err * k <= step) by {
        if bit_len(x) >= p {
            assert(-(t * k) <= 2 * (err * k) <= t * k) by (nonlinear_arith)
                requires
                    -t <= 2 * err <= t,
                    k > 0,
            ;
        } else {
            assert(-(den * k) <= err * k <= den * k) by (nonlinear_arith)
                requires
                    -den <= 2 * err <= den,
                    k > 0,
                    den > 0,
            ;
        }
    }
    assert(n * den * k == num * k + err * k) by (nonlinear_arith)
        requires
            err == n * den - num,
    ;
    assert(den * k >= 0) by (nonlinear_arith)
        requires
            den > 0,
            k > 0,
    ;
}

/// One rounding decision, with numerator, divisor and unit all scaled by `s`.
proof fn lemma_ratio_step(num: nat, t: nat, s: nat, w: nat, u: nat, v: nat)
    requires
        t > 0,
        s > 0,
        v == u * s,
        w == t * s,
    ensures
        ({
            let q = num / t;
            let r = num % t;
            let q2 = (num * s) / w;
            let r2 = (num * s) % w;
            let a = if 2 * r > t || (2 * r == t && q % 2 == 1) { (q + 1) * u } else { q * u };
            let b = if 2 * r2 > w || (2 * r2 == w && q2 % 2 == 1) { (q2 + 1) * v } else { q2 * v };
            b == a * s
        }),
{
    lemma_fundamental_div_mod(num as int, t as int);
    lemma_mod_bound(num as int, t as int);
    let k = num / t;
    let m = num % t;
    assert(num * s == w * k + m * s) by (nonlinear_arith)
        requires
            num == t * k + m,
            w == t * s,
    ;
    assert(0 <= m * s < w) by (nonlinear_arith)
        requires
            0 <= m < t,
            s > 0,
            w == t * s,
    ;
    lemma_fundamental_div_mod_converse((num * s) as int, w as int, k as int, (m * s) as int);
    assert((2 * m > t) == (2 * (m * s) > w)) by (nonlinear_arith)
        requires
            w == t * s,
            s > 0,
    ;
    assert((2 * m == t) == (2 * (m * s) == w)) by (nonlinear_arith)
        requires
            w == t * s,
            s > 0,
    ;
    assert((k + 1) * v == ((k + 1) * u) * s) by (nonlinear_arith)
        requires
            v == u * s,
    ;
    assert(k * v == (k * u) * s) by (nonlinear_arith)
        requires
            v == u * s,
    ;
}

/// `2^k` as a wide machine number.
pub fn wide_power_of_two(k: u32) -> (r: u128)
    requires
        k < 128,
    ensures
        r == pow2(k as nat),
        r > 0,
{
    if k < 64 {
        power_of_two(k) as u128
    } else {
        proof {
            lemma2_to64();
            lemma_pow2_adds((k - 64) as nat, 64);
        }
        let hi: u64 = power_of_two(k - 64);
        assert(0 < hi * 0x1_0000_0000_0000_0000 <= u128::MAX) by (nonlinear_arith)
            requires
                0 < hi <= u64::MAX,
        ;
        hi as u128 * 0x1_0000_0000_0000_0000u128
    }
}

/// Rounds `num / den` to `p` significant bits and returns the quotient and the
/// exponent of the spacing.
pub fn round_ratio(num: u128, den: u128, p: u32) -> (r: (u64, u32))
    requires
        1 <= p <= 63,
        den > 0,
    ensures
        nearest_ratio(num as nat, den as nat, p as nat) == r.0 * pow2(r.1 as nat),
        r.0 <= pow2(p as nat),
        r.1 == (if bit_len(num as nat / den as nat) > p {
            bit_len(num as nat / den as nat) - p
        } else {
            0
        }),
        r.1 <= 127,
        r.1 > 0 ==> pow2((p - 1) as nat) <= r.0,
{
    let whole: u128 = num / den;
    let n: u32 = bit_length(whole);
    assert(whole as nat == num as nat / den as nat);
    proof {
        lemma_nearest_bounds(whole as nat, p as nat);
        lemma_bit_len(whole as nat);
        lemma2_to64();
        lemma2_to64_rest();
        if p < 63 {
            lemma_pow2_strictly_increases(p as nat, 63);
        }
    }
    let k: u32 = if n <= p {
        0
    } else {
        n - p
    };
    let u: u128 = wide_power_of_two(k);
    assert(u == spacing(whole as nat, p as nat));
    proof {
        // the spacing never exceeds the quotient, unless it is one
        lemma_fundamental_div_mod(num as int, den as int);
        lemma_mod_bound(num as int, den as int);
        if k > 0 {
            lemma_pow2_pos((p - 1) as nat);
            lemma_fundamental_div_mod(whole as int, u as int);
            assert(u <= whole) by (nonlinear_arith)
                requires
                    whole / u >= 1,
                    u > 0,
                    whole == u * (whole / u) + whole % u,
                    whole % u >= 0,
            ;
            assert(den * u <= num) by (nonlinear_arith)
                requires
                    u <= whole,
                    num >= den * whole,
                    den > 0,
            ;
        } else {
            assert(den * 1 == den);
        }
        assert(den * u > 0) by (nonlinear_arith)
            requires
                den > 0,
                u > 0,
        ;
    }
    let t: u128 = den * u;
    let q: u128 = num / t;
    let r: u128 = num % t;
    assert(q as nat == num as nat / t as nat && r as nat == num as nat % t as nat);
    proof {
        // dividing in two steps gives the same quotient
        lemma_div_denominator(num as int, den as int, u as int);
        assert(q == whole / u);
    }
    if r > t - r || (r == t - r && q % 2 == 1) {
        (q as u64 + 1, k)
    } else {
        (q as u64, k)
    }
}

/// Rounds `x` to `p` significant bits and returns the quotient and the
/// exponent of the spacing.
pub fn round_to(x: u128, p: u32) -> (r: (u64, u32))
    requires
        1 <= p <= 63,
    ensures
        nearest(x as nat, p as nat) == r.0 * pow2(r.1 as nat),
        r.0 <= pow2(p as nat),
        r.1 <= 127,
        r.1 > 0 ==> pow2((p - 1) as nat) <= r.0,
        r.1 == (if bit_len(x as nat) > p { bit_len(x as nat) - p } else { 0 }),
{
    assert(x as nat / 1 == x as nat);
    round_ratio(x, 1, p)
}

} // verus!
