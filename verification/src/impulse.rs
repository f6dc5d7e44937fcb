//! What the oversampler does to a single sample: brought to the high rate it becomes the
//! kernel, tap by tap, and a single sample of the high rate comes back as the taps of
//! the kernel that fall on the original rate. As both passes are sums over the samples,
//! this says what they do to every sound.

use vstd::prelude::*;
use vstd::arithmetic::div_mod::*;
use vstd::arithmetic::power2::*;
use crate::accuracy::lemma_exact;
use crate::arith::{number, lemma_infinity, lemma_pattern_exact, lemma_ratio_pattern, lemma_sum};
use crate::dsp::lemma_rails;
use crate::oversample::{Oversampler, TAPS_PER_PHASE, phase_sum};
use crate::rounding::lemma_ratio_between;
use crate::scalar::{fadd, fdiv, fmul};
use crate::single::{Bits, INFINITY, ONE, is_finite, magnitude, negative, unsigned, value, lemma_magnitude_order, lemma_zero};

verus! {

/// A signal that is one at `p` and silent everywhere else.
pub open spec fn is_impulse(s: Seq<Bits>, p: int) -> bool {
    &&& 0 <= p < s.len()
    &&& s[p] == ONE
    &&& forall|i: int| 0 <= i < s.len() && i != p ==> #[trigger] s[i] == 0
}

pub proof fn lemma_times_nothing(x: Bits)
    requires
        is_finite(x),
    ensures
        is_finite(fmul(x, 0)),
        value(fmul(x, 0)) == 0,
{
    lemma_zero(0);
    lemma_zero(x);
    lemma_pow2_pos(149);
    lemma_pow2_pos(277);
    assert(unsigned(0) == 0);
    assert(magnitude(x) * 0 == 0);
    lemma_ratio_pattern(0, pow2(149), negative(x));
    lemma_ratio_between(0, pow2(149), 0, 24);
    lemma_exact(0, 0);
    assert(0 * pow2(0) == 0 && 0 * pow2(149) == 0);
}

pub proof fn lemma_times_one(x: Bits)
    requires
        is_finite(x),
    ensures
        is_finite(fmul(x, ONE)),
        value(fmul(x, ONE)) == value(x),
{
    lemma_rails();
    lemma_pow2_pos(149);
    assert(unsigned(ONE) == ONE);
    let m = magnitude(x);
    let u = pow2(149);
    lemma_ratio_between(m * u, u, m, 24);
    lemma_pattern_exact(x);
    lemma_infinity();
    lemma_magnitude_order(x, INFINITY);
    assert(unsigned(INFINITY) == INFINITY);
    lemma_ratio_pattern(m * u, u, negative(x));
}

/// A sum of which one side is nothing.
proof fn lemma_one_side(a: Bits, b: Bits)
    requires
        is_finite(a),
        is_finite(b),
        value(a) == 0 || value(b) == 0,
    ensures
        is_finite(fadd(a, b)),
        value(fadd(a, b)) == value(a) + value(b),
{
    lemma_zero(a);
    lemma_zero(b);
    lemma_sum(a, b);
    lemma_pattern_exact(a);
    lemma_pattern_exact(b);
    lemma_infinity();
    lemma_magnitude_order(a, INFINITY);
    lemma_magnitude_order(b, INFINITY);
    assert(unsigned(INFINITY) == INFINITY);
    lemma_zero(fadd(a, b));
}

// ---- Up ---------------------------------------------------------------------

proof fn lemma_phase_of_impulse(phase: Seq<Bits>, input: Seq<Bits>, p: int, n: int, k: int)
    requires
        is_impulse(input, p),
        0 <= n < input.len(),
        0 <= k <= phase.len(),
        forall|j: int| 0 <= j < phase.len() ==> is_finite(#[trigger] phase[j]),
    ensures
        is_finite(phase_sum(phase, input, n, k)),
        value(phase_sum(phase, input, n, k)) == (if 0 <= n - p < k {
            value(phase[n - p])
        } else {
            0
        }),
    decreases k,
{
    lemma_zero(0);
    if k > 0 {
        lemma_phase_of_impulse(phase, input, p, n, k - 1);
        if n >= k - 1 {
            let x = input[n - (k - 1)];
            let tap = phase[k - 1];
            assert(is_finite(tap));
            if n - (k - 1) == p {
                lemma_times_one(tap);
            } else {
                assert(x == 0);
                lemma_times_nothing(tap);
            }
            lemma_one_side(phase_sum(phase, input, n, k - 1), fmul(tap, x));
        }
    }
}

/// A single sample becomes the kernel at the high rate: from its own place on, sample
/// after sample holds the kernel's taps in their order, and everything before and behind
/// is silent.
pub proof fn law_impulse_becomes_kernel(o: Oversampler, input: Seq<Bits>, p: int, j: int)
    requires
        o.wf(),
        is_impulse(input, p),
        0 <= j < input.len() * o.factor,
        forall|i: int, k: int|
            0 <= i < o.factor && 0 <= k < TAPS_PER_PHASE ==> is_finite(#[trigger] o.phases@[i]@[k]),
    ensures
        ({
            let t = j - p * o.factor;
            let v = value(o.raised(input)[j]);
            // tap `t` stands in phase `t % factor`, at `t / factor`
            if 0 <= t < 64 * o.factor {
                v == value(o.phases@[t % o.factor as int]@[t / o.factor as int])
            } else {
                v == 0
            }
        }),
{
    let f = o.factor as int;
    let n = j / f;
    let i = j % f;
    lemma_fundamental_div_mod(j, f);
    lemma_mod_bound(j, f);
    assert(0 <= n < input.len()) by (nonlinear_arith)
        requires
            j == f * n + i,
            0 <= i < f,
            0 <= j < input.len() * f,
    ;
    let phase = o.phases@[i]@;
    assert(phase.len() == TAPS_PER_PHASE);
    assert forall|k: int| 0 <= k < phase.len() implies is_finite(#[trigger] phase[k]) by {
        assert(is_finite(o.phases@[i]@[k]));
    }
    lemma_phase_of_impulse(phase, input, p, n, TAPS_PER_PHASE as int);
    let t = j - p * f;
    assert(t == f * (n - p) + i) by (nonlinear_arith)
        requires
            t == j - p * f,
            j == f * n + i,
    ;
    lemma_fundamental_div_mod_converse(t, f, n - p, i);
    assert((0 <= t < 64 * f) == (0 <= n - p < 64)) by (nonlinear_arith)
        requires
            t == f * (n - p) + i,
            0 <= i < f,
    ;
}

// ---- Down -------------------------------------------------------------------

proof fn lemma_low_sum_of_impulse(o: Oversampler, high: Seq<Bits>, p: int, n: int, m: int)
    requires
        o.wf(),
        is_impulse(high, p),
        0 <= m <= 64 * o.factor,
        forall|i: int, k: int|
            0 <= i < o.factor && 0 <= k < TAPS_PER_PHASE ==> is_finite(#[trigger] o.phases@[i]@[k]),
    ensures
        ({
            let f = o.factor as int;
            let t = n * f - p;
            &&& is_finite(o.low_sum(high, n, m))
            &&& value(o.low_sum(high, n, m)) == (if 0 <= t < 64 * f && (t % f) * 64 + t / f < m {
                value(o.phases@[t % f]@[t / f])
            } else {
                0
            })
        }),
    decreases m,
{
    lemma_zero(0);
    let f = o.factor as int;
    let t = n * f - p;
    if m > 0 {
        lemma_low_sum_of_impulse(o, high, p, n, m - 1);
        let i = (m - 1) / 64;
        let k = (m - 1) % 64;
        let at = n * f - i - k * f;
        let tap = o.phases@[i]@[k];
        assert(is_finite(tap));
        assert(k * f == f * k) by (nonlinear_arith);
        if 0 <= at < high.len() {
            let x = high[at];
            if at == p {
                lemma_times_one(tap);
                assert(t == f * k + i);
                lemma_fundamental_div_mod_converse(t, f, k, i);
                assert(0 <= f * k <= 63 * f) by (nonlinear_arith)
                    requires
                        0 <= k <= 63,
                        f > 0,
                ;
            } else {
                assert(x == 0);
                lemma_times_nothing(tap);
                lemma_other_tap(t, f, i, k, m);
            }
            lemma_one_side(o.low_sum(high, n, m - 1), fmul(tap, x));
        } else {
            lemma_other_tap(t, f, i, k, m);
        }
    }
}

/// A tap that is not the one in question.
proof fn lemma_other_tap(t: int, f: int, i: int, k: int, m: int)
    requires
        f > 0,
        m - 1 == 64 * i + k,
        0 <= k < 64,
        t != f * k + i,
    ensures
        0 <= t < 64 * f ==> (t % f) * 64 + t / f != m - 1,
{
    if 0 <= t < 64 * f {
        lemma_fundamental_div_mod(t, f);
        lemma_mod_bound(t, f);
        let a = t % f;
        let b = t / f;
        assert(0 <= b < 64) by (nonlinear_arith)
            requires
                t == f * b + a,
                0 <= a < f,
                0 <= t < 64 * f,
        ;
        if a * 64 + b == m - 1 {
            assert(a == i && b == k);
        }
    }
}

/// A single sample of the high rate comes back as the taps of the kernel that fall on the
/// original rate: output `n` holds the tap that lies as far behind the sample as the
/// output does, over the factor.
pub proof fn law_impulse_comes_back_as_kernel(o: Oversampler, high: Seq<Bits>, p: int, len: nat, n: int)
    requires
        o.wf(),
        is_impulse(high, p),
        0 <= n < len,
        forall|i: int, k: int|
            0 <= i < o.factor && 0 <= k < TAPS_PER_PHASE ==> is_finite(#[trigger] o.phases@[i]@[k]),
    ensures
        ({
            let f = o.factor as int;
            let t = n * f - p;
            exists|x: Bits|
                {
                    &&& is_finite(x)
                    &&& #[trigger] fdiv(x, number(o.factor as nat)) == o.lowered(high, len)[n]
                    &&& value(x) == (if 0 <= t < 64 * f {
                        value(o.phases@[t % f]@[t / f])
                    } else {
                        0
                    })
                }
        }),
{
    let f = o.factor as int;
    let t = n * f - p;
    lemma_low_sum_of_impulse(o, high, p, n, 64 * f);
    if 0 <= t < 64 * f {
        lemma_fundamental_div_mod(t, f);
        lemma_mod_bound(t, f);
        assert(0 <= t / f < 64) by (nonlinear_arith)
            requires
                t == f * (t / f) + t % f,
                0 <= t % f < f,
                0 <= t < 64 * f,
        ;
    }
    let x = o.low_sum(high, n, o.factor * TAPS_PER_PHASE as int);
    assert(fdiv(x, number(o.factor as nat)) == o.lowered(high, len)[n]);
}

} // verus!
