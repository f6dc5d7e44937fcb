//! What oversampling does to sound that the clipper leaves alone: a constant comes
//! out near itself, once the kernel has filled.

use vstd::prelude::*;
use vstd::arithmetic::div_mod::*;
use vstd::arithmetic::power2::*;
use crate::arith::{number, lemma_ratio_pattern};
use crate::curves::{grain, unit, lemma_divided, lemma_product, lemma_sum_error, lemma_units};
use crate::fft::lemma_word;
use crate::oversample::{Oversampler, TAPS_PER_PHASE, phase_sum};
use crate::rounding::{nearest_ratio, lemma_bit_len_unique, lemma_nearest_bounds, lemma_ratio_error};
use crate::scalar::{fadd, fdiv, fmul};
use crate::single::{Bits, is_finite, magnitude, negative, value, lemma_zero};

verus! {

/// The first `k` taps of a phase, added up.
pub open spec fn tap_sum(phase: Seq<Bits>, k: int) -> int
    decreases k,
{
    if k <= 0 {
        0
    } else {
        tap_sum(phase, k - 1) + value(phase[k - 1])
    }
}

/// The first `k` taps of a phase without their signs, added up.
pub open spec fn tap_size(phase: Seq<Bits>, k: int) -> int
    decreases k,
{
    if k <= 0 {
        0
    } else {
        tap_size(phase, k - 1) + magnitude(phase[k - 1])
    }
}

/// Does a phase let a constant pass? Its taps come to one, up to a 1024th, and are not
/// too large to be added up.
pub open spec fn is_even(phase: Seq<Bits>) -> bool {
    &&& forall|k: int| 0 <= k < TAPS_PER_PHASE ==> is_finite(#[trigger] phase[k])
    &&& tap_size(phase, TAPS_PER_PHASE as int) <= 4 * pow2(149)
    &&& 1024 * (tap_sum(phase, TAPS_PER_PHASE as int) - pow2(149)) <= pow2(149)
    &&& 1024 * (pow2(149) - tap_sum(phase, TAPS_PER_PHASE as int)) <= pow2(149)
}

proof fn lemma_tap_size(phase: Seq<Bits>, k: int, n: int)
    requires
        0 <= k <= n,
    ensures
        0 <= tap_size(phase, k) <= tap_size(phase, n),
        -tap_size(phase, k) <= tap_sum(phase, k) <= tap_size(phase, k),
        k < n ==> magnitude(phase[k]) <= tap_size(phase, n),
    decreases n,
{
    if k < n {
        lemma_tap_size(phase, k, n - 1);
        if k == n - 1 {
            lemma_tap_size(phase, k, k);
        }
    } else if n > 0 {
        lemma_tap_size(phase, n - 1, n - 1);
    }
}

/// A product of a number of at most `m` units with one of at most `l`.
proof fn lemma_small(x: int, v: int, m: int, l: int)
    requires
        m >= 0,
        l >= 0,
        -(m * unit()) <= x <= m * unit(),
        -(l * unit()) <= v <= l * unit(),
    ensures
        -((m * l) * (unit() * unit())) <= x * v <= (m * l) * (unit() * unit()),
{
    lemma_units();
    let a = m * unit();
    let b = l * unit();
    assert(a >= 0 && b >= 0) by (nonlinear_arith)
        requires
            m >= 0,
            l >= 0,
            unit() > 0,
            a == m * unit(),
            b == l * unit(),
    ;
    assert(-(a * b) <= x * v <= a * b) by (nonlinear_arith)
        requires
            -a <= x <= a,
            -b <= v <= b,
    ;
    assert(a * b == (m * l) * (unit() * unit())) by (nonlinear_arith)
        requires
            a == m * unit(),
            b == l * unit(),
    ;
}

// ---- Up ---------------------------------------------------------------------

/// A phase on a constant gives the constant times its taps, up to roundings.
proof fn lemma_phase(phase: Seq<Bits>, input: Seq<Bits>, c: Bits, n: int, k: int)
    requires
        is_even(phase),
        is_finite(c),
        magnitude(c) <= pow2(149),
        TAPS_PER_PHASE - 1 <= n < input.len(),
        forall|j: int| 0 <= j < input.len() ==> input[j] == c,
        0 <= k <= TAPS_PER_PHASE,
    ensures
        is_finite(phase_sum(phase, input, n, k)),
        -(k * (16 * (grain() * unit()))) <= value(phase_sum(phase, input, n, k)) * unit() - value(c) * tap_sum(
            phase,
            k,
        ) <= k * (16 * (grain() * unit())),
        -(5 * unit()) <= value(phase_sum(phase, input, n, k)) <= 5 * unit(),
    decreases k,
{
    lemma_units();
    let u = unit();
    let g = grain();
    let w = g * u;
    lemma_tap_size(phase, k, TAPS_PER_PHASE as int);
    if k <= 0 {
        lemma_zero(0);
        assert(value(c) * 0 == 0 && 0 * u == 0) by (nonlinear_arith);
    } else {
        lemma_phase(phase, input, c, n, k - 1);
        lemma_tap_size(phase, k - 1, TAPS_PER_PHASE as int);
        let acc = phase_sum(phase, input, n, k - 1);
        let tap = phase[k - 1];
        let p = fmul(tap, c);
        lemma_small(value(tap), value(c), 4, 1);
        lemma_product(tap, c, 4);
        lemma_roomy(value(tap), value(c), value(p), 4, 5);
        lemma_sum_error(acc, p, 10);
        let out = fadd(acc, p);
        let e = value(out) - (value(acc) + value(p));
        assert(-(11 * w) <= e * u <= 11 * w) by (nonlinear_arith)
            requires
                -(11 * g) <= e <= 11 * g,
                w == g * u,
                u > 0,
        ;
        assert(value(out) * u == value(acc) * u + value(p) * u + e * u) by (nonlinear_arith)
            requires
                e == value(out) - (value(acc) + value(p)),
        ;
        assert(value(c) * tap_sum(phase, k) == value(c) * tap_sum(phase, k - 1) + value(tap) * value(c))
            by (nonlinear_arith)
            requires
                tap_sum(phase, k) == tap_sum(phase, k - 1) + value(tap),
        ;
        assert(k * (16 * w) == (k - 1) * (16 * w) + 16 * w) by (nonlinear_arith);
    }
    let x = value(phase_sum(phase, input, n, k));
    lemma_small(tap_sum(phase, k), value(c), 4, 1);
    assert(tap_sum(phase, k) * value(c) == value(c) * tap_sum(phase, k)) by (nonlinear_arith);
    assert(k * (16 * w) <= 1024 * w) by (nonlinear_arith)
        requires
            k <= 64,
            w >= 0,
    {
        assert(k * (16 * w) == (16 * k) * w) by (nonlinear_arith);
    }
    assert(w >= 0) by (nonlinear_arith)
        requires
            w == g * u,
            g >= 1,
            u > 0,
    ;
    assert(1024 * w <= u * u) by (nonlinear_arith)
        requires
            w == g * u,
            u == g * 0x100_0000,
            g >= 1,
    ;
    assert(5 * (u * u) == (5 * u) * u) by (nonlinear_arith);
    lemma_divided(x, 5 * u, u);
}

/// A product that is computed is not much larger than the exact one.
proof fn lemma_roomy(a: int, b: int, p: int, m: int, l: int)
    requires
        1 <= m <= 1024,
        l == m + 1,
        -(m * (unit() * unit())) <= a * b <= m * (unit() * unit()),
        -((m + 1) * (grain() * unit())) <= p * unit() - a * b <= (m + 1) * (grain() * unit()),
    ensures
        -(l * unit()) <= p <= l * unit(),
{
    lemma_units();
    let u = unit();
    let w = grain() * u;
    assert((m + 1) * w <= u * u) by (nonlinear_arith)
        requires
            m <= 1024,
            w == grain() * u,
            u == grain() * 0x100_0000,
            grain() >= 1,
    ;
    assert((l * u) * u == m * (u * u) + u * u) by (nonlinear_arith)
        requires
            l == m + 1,
    ;
    lemma_divided(p, l * u, u);
}

/// How far the raised constant is off.
spec fn raised_error() -> int {
    unit() / 1024 + 1 + 1024 * grain()
}

proof fn lemma_raised(phase: Seq<Bits>, input: Seq<Bits>, c: Bits, n: int)
    requires
        is_even(phase),
        is_finite(c),
        magnitude(c) <= pow2(149),
        TAPS_PER_PHASE - 1 <= n < input.len(),
        forall|j: int| 0 <= j < input.len() ==> input[j] == c,
    ensures
        ({
            let y = phase_sum(phase, input, n, TAPS_PER_PHASE as int);
            &&& is_finite(y)
            &&& -raised_error() <= value(y) - value(c) <= raised_error()
        }),
{
    lemma_units();
    lemma_phase(phase, input, c, n, TAPS_PER_PHASE as int);
    let u = unit();
    let g = grain();
    let y = value(phase_sum(phase, input, n, TAPS_PER_PHASE as int));
    let t = tap_sum(phase, TAPS_PER_PHASE as int);
    let v = value(c);
    let d = t - u;
    let q = u / 1024 + 1;
    assert(-q <= d <= q);
    assert(-(q * u) <= v * d <= q * u) by (nonlinear_arith)
        requires
            -q <= d <= q,
            -u <= v <= u,
            q >= 0,
    ;
    assert(v * t == v * u + v * d) by (nonlinear_arith)
        requires
            d == t - u,
    ;
    assert(64 * (16 * (g * u)) == (1024 * g) * u) by (nonlinear_arith);
    assert((y - v) * u == y * u - v * u) by (nonlinear_arith);
    assert((q + 1024 * g) * u == q * u + (1024 * g) * u) by (nonlinear_arith);
    lemma_divided(y - v, q + 1024 * g, u);
}

// ---- Down -------------------------------------------------------------------

/// The first `m` taps of an oversampler, phase after phase, added up.
spec fn flat_sum(o: Oversampler, m: int) -> int
    decreases m,
{
    if m <= 0 {
        0
    } else {
        flat_sum(o, m - 1) + value(o.phases@[(m - 1) / 64]@[(m - 1) % 64])
    }
}

spec fn flat_size(o: Oversampler, m: int) -> int
    decreases m,
{
    if m <= 0 {
        0
    } else {
        flat_size(o, m - 1) + magnitude(o.phases@[(m - 1) / 64]@[(m - 1) % 64])
    }
}

/// Do all phases of an oversampler let a constant pass?
pub open spec fn passes_constants(o: Oversampler) -> bool {
    forall|i: int| 0 <= i < o.phases@.len() ==> is_even((#[trigger] o.phases@[i])@)
}

/// The taps phase by phase.
proof fn lemma_flat(o: Oversampler, i: int, k: int)
    requires
        o.wf(),
        passes_constants(o),
        0 <= i < o.factor,
        0 <= k <= 64,
    ensures
        flat_size(o, 64 * i + k) <= i * (4 * unit()) + tap_size(o.phases@[i]@, k),
        -(i * (unit() / 1024 + 1)) <= flat_sum(o, 64 * i + k) - (i * unit() + tap_sum(o.phases@[i]@, k)) <= i
            * (unit() / 1024 + 1),
        flat_size(o, 64 * i + k) >= 0,
        -flat_size(o, 64 * i + k) <= flat_sum(o, 64 * i + k) <= flat_size(o, 64 * i + k),
    decreases i, k,
{
    lemma_units();
    let u = unit();
    let q = u / 1024 + 1;
    if k > 0 {
        lemma_flat(o, i, k - 1);
        assert((64 * i + k - 1) / 64 == i && (64 * i + k - 1) % 64 == k - 1);
    } else if i > 0 {
        lemma_flat(o, i - 1, 64);
        assert(is_even(o.phases@[i - 1]@));
        assert(64 * (i - 1) + 64 == 64 * i);
        assert(i * (4 * u) == (i - 1) * (4 * u) + 4 * u) by (nonlinear_arith);
        assert(i * u == (i - 1) * u + u) by (nonlinear_arith);
        assert(i * q == (i - 1) * q + q) by (nonlinear_arith);
    } else {
        assert(0 * (4 * u) == 0 && 0 * u == 0 && 0 * q == 0) by (nonlinear_arith);
    }
}

/// The sum over the high rate, where all that it takes in lies near a constant.
proof fn lemma_low(o: Oversampler, high: Seq<Bits>, c: Bits, n: int, m: int)
    requires
        o.wf(),
        passes_constants(o),
        is_finite(c),
        magnitude(c) <= pow2(149),
        TAPS_PER_PHASE <= n,
        (n + 1) * o.factor <= high.len(),
        forall|j: int|
            (n - TAPS_PER_PHASE) * o.factor < j < high.len() ==> is_finite(#[trigger] high[j]) && -raised_error()
                <= value(high[j]) - value(c) <= raised_error(),
        0 <= m <= 64 * o.factor,
    ensures
        is_finite(o.low_sum(high, n, m)),
        ({
            let off = value(o.low_sum(high, n, m)) * unit() - value(c) * flat_sum(o, m);
            let most = flat_size(o, m) * raised_error() + m * (84 * (grain() * unit()));
            -most <= off <= most
        }),
        -(64 * unit()) <= value(o.low_sum(high, n, m)) <= 64 * unit(),
    decreases m,
{
    lemma_units();
    let u = unit();
    let g = grain();
    let w = g * u;
    let err = raised_error();
    let v = value(c);
    assert(w >= 0) by (nonlinear_arith)
        requires
            w == g * u,
            g >= 1,
            u > 0,
    ;
    if m <= 0 {
        lemma_zero(0);
        assert(v * 0 == 0 && 0 * u == 0 && 0 * err == 0 && 0 * (84 * w) == 0) by (nonlinear_arith);
    } else {
        lemma_low(o, high, c, n, m - 1);
        let i = (m - 1) / 64;
        let k = (m - 1) % 64;
        let f = o.factor as int;
        lemma_place(n, f, i, k, high.len() as int);
        let at = n * f - i - k * f;
        let before = o.low_sum(high, n, m - 1);
        assert(is_even(o.phases@[i]@));
        lemma_tap_size(o.phases@[i]@, k, 64);
        let tap = o.phases@[i]@[k];
        let h = high[at];
        let p = fmul(tap, h);
        assert(err <= u);
        lemma_small(value(tap), value(h), 4, 2);
        lemma_product(tap, h, 8);
        lemma_roomy(value(tap), value(h), value(p), 8, 9);
        lemma_sum_error(before, p, 73);
        let out = fadd(before, p);
        assert(out == o.low_sum(high, n, m));
        let e = value(out) - (value(before) + value(p));
        assert(-(74 * w) <= e * u <= 74 * w) by (nonlinear_arith)
            requires
                -(74 * g) <= e <= 74 * g,
                w == g * u,
                u > 0,
        ;
        assert(value(out) * u == value(before) * u + value(p) * u + e * u) by (nonlinear_arith)
            requires
                e == value(out) - (value(before) + value(p)),
        ;
        lemma_low_step(value(tap), magnitude(tap) as int, value(h), v, value(p), w);
        let s = flat_sum(o, m - 1);
        assert(v * flat_sum(o, m) == v * s + v * value(tap)) by (nonlinear_arith)
            requires
                flat_sum(o, m) == s + value(tap),
        ;
        let a = flat_size(o, m - 1);
        assert(flat_size(o, m) * err == a * err + magnitude(tap) * err) by (nonlinear_arith)
            requires
                flat_size(o, m) == a + magnitude(tap),
        ;
        assert(m * (84 * w) == (m - 1) * (84 * w) + 84 * w) by (nonlinear_arith);
    }
    lemma_low_bound(o, c, value(o.low_sum(high, n, m)), m);
}

/// One term of the sum over the high rate.
proof fn lemma_low_step(tap: int, size: int, h: int, v: int, p: int, w: int)
    requires
        tap == size || tap == -size,
        size >= 0,
        -raised_error() <= h - v <= raised_error(),
        w == grain() * unit(),
        -(9 * w) <= p * unit() - tap * h <= 9 * w,
        w >= 0,
    ensures
        -(size * raised_error() + 9 * w) <= p * unit() - v * tap <= size * raised_error() + 9 * w,
{
    let d = h - v;
    let err = raised_error();
    assert(tap * h == v * tap + tap * d) by (nonlinear_arith)
        requires
            d == h - v,
    ;
    assert(-(size * err) <= tap * d <= size * err) by (nonlinear_arith)
        requires
            tap == size || tap == -size,
            size >= 0,
            -err <= d <= err,
    ;
}

/// The sum over the high rate stays small.
proof fn lemma_low_bound(o: Oversampler, c: Bits, x: int, m: int)
    requires
        o.wf(),
        passes_constants(o),
        magnitude(c) <= pow2(149),
        0 <= m <= 64 * o.factor,
        ({
            let off = x * unit() - value(c) * flat_sum(o, m);
            let most = flat_size(o, m) * raised_error() + m * (84 * (grain() * unit()));
            -most <= off <= most
        }),
    ensures
        -(64 * unit()) <= x <= 64 * unit(),
{
    lemma_units();
    let u = unit();
    let w = grain() * u;
    let err = raised_error();
    let i = if m == 64 * o.factor {
        o.factor - 1
    } else {
        m / 64
    };
    let k = m - 64 * i;
    lemma_flat(o, i, k);
    lemma_tap_size(o.phases@[i]@, k, 64);
    assert(is_even(o.phases@[i]@));
    let a = flat_size(o, m);
    assert(a <= 32 * u) by {
        assert(i * (4 * u) <= 28 * u) by (nonlinear_arith)
            requires
                i <= 7,
                u > 0,
        ;
    }
    lemma_small(value(c), flat_sum(o, m), 1, 32);
    assert(err <= u / 512);
    assert(a * err <= u * u) by (nonlinear_arith)
        requires
            0 <= a <= 32 * u,
            0 <= err,
            err * 32 <= u,
    ;
    assert(m * (84 * w) <= u * u) by (nonlinear_arith)
        requires
            0 <= m <= 512,
            w == grain() * u,
            u == grain() * 0x100_0000,
            grain() >= 1,
    ;
    assert((64 * u) * u == 64 * (u * u)) by (nonlinear_arith);
    lemma_divided(x, 64 * u, u);
}

/// What is taken in for an output sample lies in the block, behind its beginning.
proof fn lemma_place(n: int, f: int, i: int, k: int, len: int)
    requires
        64 <= n,
        0 <= i < f,
        0 <= k < 64,
        (n + 1) * f <= len,
    ensures
        0 <= n * f - i - k * f < len,
        (n - 64) * f < n * f - i - k * f,
{
    assert(k * f <= 63 * f) by (nonlinear_arith)
        requires
            k <= 63,
            f > 0,
    ;
    assert(k * f >= 0) by (nonlinear_arith)
        requires
            k >= 0,
            f > 0,
    ;
    assert((n - 64) * f == n * f - 64 * f && (n + 1) * f == n * f + f) by (nonlinear_arith);
    assert(n * f >= 64 * f) by (nonlinear_arith)
        requires
            n >= 64,
            f > 0,
    ;
}

// ---- There and back ---------------------------------------------------------

/// A factor as a number is exact.
proof fn lemma_factor(f: nat)
    requires
        f == 2 || f == 4 || f == 8,
    ensures
        is_finite(number(f)),
        !negative(number(f)),
        magnitude(number(f)) == f * pow2(149),
{
    lemma2_to64();
    lemma_word(f);
    if f == 2 {
        lemma_bit_len_unique(f, 2);
    } else if f == 4 {
        lemma_bit_len_unique(f, 3);
    } else {
        lemma_bit_len_unique(f, 4);
    }
    lemma_nearest_bounds(f, 24);
}

/// Dividing by the factor.
proof fn lemma_thinned(x: Bits, f: nat)
    requires
        is_finite(x),
        f == 2 || f == 4 || f == 8,
        -(64 * unit()) <= value(x) <= 64 * unit(),
    ensures
        is_finite(fdiv(x, number(f))),
        -(f * (65 * grain())) <= f * value(fdiv(x, number(f))) - value(x) <= f * (65 * grain()),
{
    lemma_units();
    lemma2_to64();
    lemma_factor(f);
    lemma_zero(number(f));
    let u = unit() as nat;
    let g = grain();
    let m = magnitude(x);
    let num = m * u;
    let den = f * u;
    assert(den > 0) by (nonlinear_arith)
        requires
            den == f * u,
            f >= 2,
            u > 0,
    ;
    let minus = negative(x) != negative(number(f));
    lemma_ratio_error(num, den, 24);
    lemma_ratio_pattern(num, den, minus);
    let r = nearest_ratio(num, den, 24);
    let k: int = 0x100_0000;
    assert(r * den * k == ((f * r) * k) * u && num * k + num + den * k == (m * k + m + f * k) * u) by (nonlinear_arith)
        requires
            num == m * u,
            den == f * u,
    ;
    assert(r * den * k + num + den * k == ((f * r) * k + m + f * k) * u && num * k == (m * k) * u) by (nonlinear_arith)
        requires
            num == m * u,
            den == f * u,
    ;
    assert((f * r) * k <= m * k + m + f * k) by (nonlinear_arith)
        requires
            ((f * r) * k) * u <= (m * k + m + f * k) * u,
            u > 0,
    ;
    assert(m * k <= (f * r) * k + m + f * k) by (nonlinear_arith)
        requires
            (m * k) * u <= ((f * r) * k + m + f * k) * u,
            u > 0,
    ;
    assert(m <= 64 * (g * k));
    assert(-(64 * g + f) <= f * r - m <= 64 * g + f);
    assert(64 * g + f <= f * (65 * g)) by (nonlinear_arith)
        requires
            f >= 2,
            g >= 1,
    ;
    assert(r <= m + 64 * g + f) by (nonlinear_arith)
        requires
            f * r <= m + 64 * g + f,
            f >= 1,
    ;
    assert(r < pow2(277));
    assert(f * value(fdiv(x, number(f))) == (if minus { -(f * r) } else { (f * r) as int })) by (nonlinear_arith)
        requires
            value(fdiv(x, number(f))) == (if minus { -(r as int) } else { r as int }),
    ;
}

/// A constant that the clipper leaves alone comes out of oversampling near itself,
/// once the kernel has filled: it is off by a 128th of full scale at most, where every
/// phase of the kernel comes to one up to a 1024th.
pub proof fn law_constants_pass<F: Fn(Bits) -> Bits>(
    o: Oversampler,
    input: Seq<Bits>,
    clip_fn: F,
    high: Seq<Bits>,
    c: Bits,
    n: int,
)
    requires
        o.wf(),
        passes_constants(o),
        is_finite(c),
        magnitude(c) <= pow2(149),
        forall|j: int| 0 <= j < input.len() ==> input[j] == c,
        o.is_block(input, clip_fn, high),
        forall|x: Bits, y: Bits| call_ensures(clip_fn, (x,), y) ==> y == x,
        2 * TAPS_PER_PHASE - 1 <= n < input.len(),
    ensures
        is_finite(o.lowered(high, input.len())[n]),
        128 * (value(o.lowered(high, input.len())[n]) - value(c)) <= pow2(149),
        128 * (value(c) - value(o.lowered(high, input.len())[n])) <= pow2(149),
{
    lemma_units();
    let u = unit();
    let g = grain();
    let f = o.factor as int;
    let v = value(c);
    let err = raised_error();
    assert((n + 1) * f <= high.len()) by (nonlinear_arith)
        requires
            high.len() == input.len() * f,
            n + 1 <= input.len(),
            f > 0,
    ;
    assert forall|j: int| (n - TAPS_PER_PHASE) * f < j < high.len() implies is_finite(#[trigger] high[j]) && -err
        <= value(high[j]) - v <= err by {
        let q = j / f;
        lemma_fundamental_div_mod(j, f);
        lemma_mod_bound(j, f);
        assert(63 <= q < input.len()) by (nonlinear_arith)
            requires
                (n - 64) * f < j < input.len() * f,
                j == f * q + j % f,
                0 <= j % f < f,
                n >= 127,
        ;
        assert(is_even(o.phases@[j % f]@));
        lemma_raised(o.phases@[j % f]@, input, c, q);
        assert(call_ensures(clip_fn, (o.raised(input)[j],), high[j]));
        assert(high[j] == o.raised(input)[j]);
    }
    let m = 64 * f;
    lemma_low(o, high, c, n, m);
    lemma_flat(o, f - 1, 64);
    assert(is_even(o.phases@[f - 1]@));
    let low = o.low_sum(high, n, m);
    let x = value(low);
    let s = flat_sum(o, m);
    let q = u / 1024 + 1;
    // the taps come to the factor
    assert((f - 1) * u + u == f * u && (f - 1) * q + q == f * q && (f - 1) * (4 * u) + 4 * u == f * (4 * u))
        by (nonlinear_arith);
    let d = s - f * u;
    assert(-(f * q) <= d <= f * q);
    assert(-((f * q) * u) <= v * d <= (f * q) * u) by (nonlinear_arith)
        requires
            -(f * q) <= d <= f * q,
            -u <= v <= u,
            q >= 0,
            f > 0,
    ;
    assert(v * s == (f * v) * u + v * d) by (nonlinear_arith)
        requires
            d == s - f * u,
    ;
    let a = flat_size(o, m);
    assert(a * err <= (f * (4 * err)) * u) by (nonlinear_arith)
        requires
            a <= f * (4 * u),
            err >= 0,
    ;
    assert(m * (84 * (g * u)) == (f * (5376 * g)) * u) by (nonlinear_arith)
        requires
            m == 64 * f,
    ;
    let b = q + 4 * err + 5376 * g;
    assert((f * b) * u == (f * q) * u + (f * (4 * err)) * u + (f * (5376 * g)) * u) by (nonlinear_arith)
        requires
            b == q + 4 * err + 5376 * g,
    ;
    assert((x - f * v) * u == x * u - (f * v) * u) by (nonlinear_arith);
    lemma_divided(x - f * v, f * b, u);
    // a factor-th of it
    lemma_thinned(low, f as nat);
    let y = value(fdiv(low, number(f as nat)));
    assert(f * (y - v) == (f * y - x) + (x - f * v)) by (nonlinear_arith);
    assert(f * (b + 65 * g) == f * b + f * (65 * g)) by (nonlinear_arith);
    assert((y - v) * f == f * (y - v) && (b + 65 * g) * f == f * (b + 65 * g)) by (nonlinear_arith);
    lemma_divided(y - v, b + 65 * g, f);
    assert(128 * (b + 65 * g) <= u);
}

} // verus!
