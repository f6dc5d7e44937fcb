//! What single values count for in the curves: where a moving average spreads them, which
//! note of a chord they belong to, what a rise adds to the flux, and on which side of a
//! moment the novelty puts them.

use vstd::prelude::*;
use vstd::arithmetic::power2::*;
use crate::accuracy::{fine, is_near, one, lemma_exact_sum, lemma_fine, lemma_near_cancel, lemma_near_difference, lemma_near_magnitude, lemma_near_quotient, lemma_near_share, lemma_one, lemma_product_off, lemma_quotient_off, lemma_small_number, lemma_times};
use crate::arith::{number, lemma_infinity, lemma_pattern_exact, lemma_sum};
use crate::audio_io::mean_of;
use crate::correlation::{curve_bins, curve_point, weight_sum, weighted_sum};
use crate::detect::{local_mean, mean_square, square_sum};
use crate::dsp::lemma_rails;
use crate::envelope::channel_sum;
use crate::functions::{Function, gives};
use crate::impulse::{is_impulse, lemma_times_nothing, lemma_times_one};
use crate::plan::{least, minus};
use crate::scalar::{fadd, fmul, fsub, lemma_negated, negated};
use crate::single::{Bits, HALF, INFINITY, MILLIONTH, MINUS_ONE, ONE, TWO, is_finite, last_digit, less, magnitude, negative, significand, unsigned, value, lemma_magnitude_order, lemma_zero};
use crate::structure::{CLASSES, NOVELTY_SECS, chord, class_sum, is_kernel_at, offset_of, reach_of, rise, same_side, taper_of};

verus! {

/// A sum with nothing on its left.
pub proof fn lemma_after_nothing(z: Bits, a: Bits)
    requires
        is_finite(a),
        is_finite(z),
        value(z) == 0,
    ensures
        is_finite(fadd(z, a)),
        value(fadd(z, a)) == value(a),
        is_finite(fadd(a, z)),
        value(fadd(a, z)) == value(a),
{
    lemma_zero(a);
    lemma_zero(z);
    lemma_sum(z, a);
    lemma_sum(a, z);
    lemma_pattern_exact(a);
    lemma_infinity();
    lemma_magnitude_order(a, INFINITY);
    assert(unsigned(INFINITY) == INFINITY);
    lemma_zero(fadd(z, a));
    lemma_zero(fadd(a, z));
}

// ---- Averages ---------------------------------------------------------------

proof fn lemma_impulse_sum(s: Seq<Bits>, p: int, base: int, n: int)
    requires
        is_impulse(s, p),
        0 <= base,
        0 <= n,
        base + n <= s.len(),
    ensures
        is_finite(channel_sum(s, base, n)),
        value(channel_sum(s, base, n)) == if base <= p < base + n {
            one()
        } else {
            0
        },
    decreases n,
{
    lemma_rails();
    lemma_one();
    lemma_zero(0);
    assert(is_finite(0) && is_finite(ONE));
    assert(value(0) == 0 && value(ONE) == one());
    if n > 0 {
        lemma_impulse_sum(s, p, base, n - 1);
        if base <= p < base + n - 1 {
            assert(s[base + n - 1] == 0);
            lemma_after_nothing(0, channel_sum(s, base, n - 1));
        } else {
            lemma_after_nothing(channel_sum(s, base, n - 1), s[base + n - 1]);
        }
    }
}

/// A moving average is centred: a single one at `p` is spread over the places up to
/// `half` before and behind it, and over no others, and each of them shows its share of
/// the places that were averaged there.
pub proof fn law_average_is_centred(s: Seq<Bits>, half: nat, p: int, i: nat)
    requires
        is_impulse(s, p),
        i < s.len() <= 0x100_0000,
    ensures
        ({
            let v = value(local_mean(s, half, i));
            let first = if i < half { 0 } else { i - half };
            let last = if i + half >= s.len() { s.len() - 1 } else { (i + half) as int };
            if p - half <= i <= p + half {
                v > 0 && is_near(v, one(), last - first + 1, 1)
            } else {
                v == 0
            }
        }),
{
    let lo = minus(i, half);
    let hi = least(i + half + 1, s.len());
    let n = (hi - lo) as nat;
    lemma_impulse_sum(s, p, lo as int, n as int);
    let total = channel_sum(s, lo as int, n as int);
    lemma_one();
    lemma_share_of(total, n);
    if lo <= p < hi {
        let q = value(local_mean(s, half, i));
        let u = one();
        assert(q > 0) by (nonlinear_arith)
            requires
                -(1 * u) <= (q * n - u) * 0x100_0000,
                u > 0,
                n >= 1,
        ;
    }
}

// ---- Energy -----------------------------------------------------------------

proof fn lemma_impulse_squares(s: Seq<Bits>, p: int, a: int, n: int)
    requires
        is_impulse(s, p),
        0 <= a,
        0 <= n,
        a + n <= s.len(),
    ensures
        is_finite(square_sum(s, a, n)),
        value(square_sum(s, a, n)) == if a <= p < a + n {
            one()
        } else {
            0
        },
    decreases n,
{
    lemma_rails();
    lemma_one();
    lemma_zero(0);
    assert(is_finite(0) && is_finite(ONE));
    assert(value(0) == 0 && value(ONE) == one());
    if n > 0 {
        lemma_impulse_squares(s, p, a, n - 1);
        lemma_times_nothing(0);
        lemma_times_one(ONE);
        let before = square_sum(s, a, n - 1);
        let x = s[a + n - 1];
        if a <= p < a + n - 1 {
            assert(x == 0);
            lemma_after_nothing(fmul(x, x), before);
        } else {
            lemma_after_nothing(before, fmul(x, x));
        }
    }
}

/// The energy of a window is that of its own samples: a single one inside of it counts
/// for its share of the window's length, one outside for nothing.
pub proof fn law_energy_of_window(s: Seq<Bits>, p: int, start: int, size: nat)
    requires
        is_impulse(s, p),
        0 <= start,
        start + size <= s.len(),
        1 <= size <= 0x100_0000,
    ensures
        start <= p < start + size ==> is_near(value(mean_square(s, start, size)), one(), size as int, 1),
        !(start <= p < start + size) ==> value(mean_square(s, start, size)) == 0,
{
    lemma_impulse_squares(s, p, start, size as int);
    lemma_share_of(square_sum(s, start, size as int), size);
}

/// One or nothing, shared among `n`.
proof fn lemma_share_of(total: Bits, n: nat)
    requires
        is_finite(total),
        value(total) == one() || value(total) == 0,
        1 <= n <= 0x100_0000,
    ensures
        value(total) == one() ==> is_near(value(crate::scalar::fdiv(total, number(n))), one(), n as int, 1),
        value(total) == 0 ==> value(crate::scalar::fdiv(total, number(n))) == 0,
{
    lemma_one();
    lemma_fine();
    lemma_small_number(n);
    let u = one();
    assert(n * u >= u) by (nonlinear_arith)
        requires
            n >= 1,
            u > 0,
    ;
    if value(total) == one() {
        lemma_pow2_strictly_increases(149, 276);
        assert(u * u >= (n * u) * 0x80_0000) by (nonlinear_arith)
            requires
                u >= 0x1_0000_0000_0000,
                n <= 0x100_0000,
                u > 0,
        ;
        let w = pow2(276) as int;
        assert(u * u <= (n * u) * w) by (nonlinear_arith)
            requires
                u <= w,
                n >= 1,
                u > 0,
        ;
        lemma_near_quotient(total, number(n));
        let q = value(crate::scalar::fdiv(total, number(n)));
        lemma_near_cancel(q, u, n as int, u, 1);
        assert(n as int * u == n * u);
    } else {
        assert(0 * pow2(149) == 0);
        assert((0nat * pow2(149)) * (n * u) == 0) by (nonlinear_arith)
            requires
                0nat * pow2(149) == 0,
        ;
        assert(0 * u == 0);
        crate::accuracy::lemma_exact_quotient(total, number(n), 0, 149);
    }
}

/// The mean of a zone is that of its own samples: a single one inside of it counts for its
/// share of their number, one outside for nothing.
pub proof fn law_mean_of_zone(s: Seq<Bits>, p: int, a: nat, b: nat)
    requires
        is_impulse(s, p),
        a < b <= s.len(),
        b - a <= 0x100_0000,
    ensures
        a <= p < b ==> is_near(value(mean_of(s, a, b)), one(), b - a, 1),
        !(a <= p < b) ==> value(mean_of(s, a, b)) == 0,
{
    lemma_impulse_sum(s, p, a as int, b - a);
    lemma_share_of(channel_sum(s, a as int, b - a), (b - a) as nat);
    lemma_one();
}

// ---- Chords -----------------------------------------------------------------

/// A spectrum in which only bin `k` is not silent.
pub open spec fn is_tone(mags: Seq<Bits>, k: int) -> bool {
    &&& 0 <= k < mags.len()
    &&& is_finite(mags[k])
    &&& forall|i: int| 0 <= i < mags.len() && i != k ==> #[trigger] mags[i] == 0
}

proof fn lemma_tone_sum(mags: Seq<Bits>, classes: Seq<Option<usize>>, c: usize, k: int, n: int)
    requires
        is_tone(mags, k),
        0 <= n <= mags.len(),
        n <= classes.len(),
    ensures
        is_finite(class_sum(mags, classes, c, n)),
        value(class_sum(mags, classes, c, n)) == if k < n && classes[k] == Some(c) {
            value(mags[k])
        } else {
            0
        },
    decreases n,
{
    lemma_zero(0);
    assert(is_finite(0));
    if n > 0 {
        lemma_tone_sum(mags, classes, c, k, n - 1);
        let before = class_sum(mags, classes, c, n - 1);
        if n - 1 == k {
            lemma_after_nothing(before, mags[k]);
        } else {
            assert(mags[n - 1] == 0);
            lemma_after_nothing(0, before);
        }
    }
}

/// A tone sounds in the note that its bin belongs to, with all its power, and in no
/// other; a bin without a note sounds in none.
pub proof fn law_tone_sounds_in_its_note(mags: Seq<Bits>, classes: Seq<Option<usize>>, k: int, c: usize)
    requires
        is_tone(mags, k),
        k < classes.len() <= mags.len(),
        c < CLASSES,
    ensures
        chord(mags, classes).len() == 12,
        value(chord(mags, classes)[c as int]) == if classes[k] == Some(c) {
            value(mags[k])
        } else {
            0
        },
{
    lemma_tone_sum(mags, classes, c, k, classes.len() as int);
}

// ---- Flux -------------------------------------------------------------------

proof fn lemma_one_rise(before: Seq<Bits>, after: Seq<Bits>, j: int, n: int)
    requires
        0 <= j,
        is_finite(fsub(after[j], before[j])),
        value(fsub(after[j], before[j])) > 0,
        forall|k: int| 0 <= k < n && k != j ==> !less(0, #[trigger] fsub(after[k], before[k])),
    ensures
        is_finite(rise(before, after, n)),
        value(rise(before, after, n)) == if j < n {
            value(fsub(after[j], before[j]))
        } else {
            0
        },
    decreases n,
{
    lemma_zero(0);
    assert(is_finite(0));
    if n > 0 {
        lemma_one_rise(before, after, j, n - 1);
        let d = fsub(after[n - 1], before[n - 1]);
        if n - 1 == j {
            lemma_after_nothing(rise(before, after, n - 1), d);
        } else {
            assert(!less(0, d));
        }
    }
}

/// Flux counts what rises and nothing that falls: where one bin alone grows louder, the
/// flux is by how much, up to rounding, however far the others fall.
pub proof fn law_flux_counts_rises(before: Seq<Bits>, after: Seq<Bits>, j: int)
    requires
        0 <= j < after.len(),
        is_finite(after[j]),
        is_finite(before[j]),
        0x100_0000 <= value(after[j]) - value(before[j]) <= 0x1000_0000 * one(),
        forall|k: int| 0 <= k < after.len() && k != j ==> !less(0, #[trigger] fsub(after[k], before[k])),
    ensures
        is_near(value(rise(before, after, after.len() as int)), value(after[j]) - value(before[j]), 1, 2),
{
    lemma_one();
    lemma_near_difference(after[j], before[j]);
    lemma_one_rise(before, after, j, after.len() as int);
}

// ---- Novelty ----------------------------------------------------------------

proof fn lemma_offset(i: nat, l: nat)
    requires
        i <= 0x1_0000,
        l <= 0x1_0000,
    ensures
        is_finite(offset_of(i, l)),
        2 * value(offset_of(i, l)) == (2 * (i - l) + 1) * one(),
{
    lemma_one();
    lemma_small_number(i);
    lemma_small_number(l);
    lemma_negated(number(l));
    lemma2_to64();
    lemma_pow2_adds(1, 148);
    lemma_pow2_adds(23, 125);
    let u = one();
    let h = pow2(148) as int;
    assert(unsigned(HALF) == HALF && !negative(HALF));
    assert(last_digit(HALF) == 125 && significand(HALF) == 0x80_0000);
    assert(value(HALF) == h);
    let d = i - l;
    assert(i * u - l * u == d * u) by (nonlinear_arith)
        requires
            d == i - l,
    ;
    lemma_exact_sum(number(i), negated(number(l)), d, 149);
    let n = 2 * d + 1;
    assert(d * u + h == n * h) by (nonlinear_arith)
        requires
            u == 2 * h,
            n == 2 * d + 1,
    ;
    lemma_exact_sum(fsub(number(i), number(l)), HALF, n, 148);
    assert(2 * (n * h) == n * u) by (nonlinear_arith)
        requires
            u == 2 * h,
    ;
}

/// The square of a number of halves.
proof fn lemma_square(a: Bits, n: int)
    requires
        is_finite(a),
        2 * value(a) == n * one(),
        -4096 <= n <= 4096,
    ensures
        is_finite(fmul(a, a)),
        !negative(fmul(a, a)),
        value(fmul(a, a)) == (n * n) * pow2(147),
{
    lemma_one();
    lemma2_to64();
    lemma_pow2_adds(1, 148);
    lemma_pow2_adds(1, 147);
    let u = one();
    let b = pow2(147) as int;
    let m = if n < 0 {
        -n
    } else {
        n
    };
    let k = (m * m) as nat;
    assert(n * n == m * m && 0 <= m * m <= 0x100_0000) by (nonlinear_arith)
        requires
            m == n || m == -n,
            -4096 <= n <= 4096,
    ;
    lemma_zero(a);
    let x = magnitude(a) as int;
    assert(2 * x == m * u) by (nonlinear_arith)
        requires
            2 * value(a) == n * u,
            x == value(a) || x == -value(a),
            x >= 0,
            m == n || m == -n,
            m >= 0,
            u > 0,
    ;
    assert(x == m * (2 * b)) by (nonlinear_arith)
        requires
            2 * x == m * u,
            u == 4 * b,
    ;
    let num = magnitude(a) * magnitude(a);
    assert(num == (k * pow2(147)) * pow2(149)) by (nonlinear_arith)
        requires
            num == x * x,
            x == m * (2 * b),
            k == m * m,
            b == pow2(147),
            pow2(149) == 4 * b,
    ;
    crate::rounding::lemma_ratio_between(num, pow2(149), k * pow2(147), 24);
    crate::accuracy::lemma_exact(k, 147);
    crate::arith::lemma_ratio_pattern(num, pow2(149), false);
}

/// Novelty weighs what is near a moment most: with the two places in hops from the moment,
/// counted from the middle of each hop, the exponential is taken of minus the sum of their
/// squares over half the square of the reach, up to rounding.
pub proof fn law_novelty_fades_with_distance(i: nat, j: nat, l: nat)
    requires
        i < 2 * l,
        j < 2 * l,
        1 <= l <= 1024,
    ensures
        ({
            // twice the distances in hops
            let a = 2 * (i - l) + 1;
            let b = 2 * (j - l) + 1;
            let t = taper_of(i, j, l);
            is_finite(t) && negative(t) && is_near(magnitude(t) as int, (a * a + b * b) * one(), (2 * (l * l)) as int, 1)
        }),
{
    lemma_one();
    lemma_fine();
    lemma2_to64();
    lemma_pow2_adds(1, 148);
    lemma_pow2_adds(1, 147);
    crate::heights::lemma_ends();
    let u = one();
    let q = pow2(147) as int;
    let a = 2 * (i - l) + 1;
    let b = 2 * (j - l) + 1;
    lemma_offset(i, l);
    lemma_offset(j, l);
    let di = offset_of(i, l);
    let dj = offset_of(j, l);
    lemma_square(di, a);
    lemma_square(dj, b);
    let s = a * a + b * b;
    assert(1 <= a * a <= 0x40_0000 && 1 <= b * b <= 0x40_0000) by (nonlinear_arith)
        requires
            -2047 <= a <= 2047,
            -2047 <= b <= 2047,
            a % 2 == 1,
            b % 2 == 1,
    ;
    assert((a * a) * q + (b * b) * q == s * q) by (nonlinear_arith)
        requires
            s == a * a + b * b,
    ;
    lemma_exact_sum(fmul(di, di), fmul(dj, dj), s, 147);
    let sum = fadd(fmul(di, di), fmul(dj, dj));
    // half the reach, and half its square
    lemma_small_number(l);
    let n = l as int;
    assert((n * u) * u == (l * pow2(148)) * (2 * u)) by (nonlinear_arith)
        requires
            u == 2 * pow2(148),
            n == l,
    ;
    crate::accuracy::lemma_exact_quotient(number(l), TWO, l, 148);
    let sigma = crate::scalar::fdiv(number(l), TWO);
    let h = pow2(148) as int;
    assert(value(sigma) == n * h);
    assert(n * h > 0) by (nonlinear_arith)
        requires
            n >= 1,
            h > 0,
    ;
    lemma_zero(sigma);
    lemma_zero(TWO);
    assert((2 * u) * (n * h) == (l * pow2(149)) * u) by (nonlinear_arith)
        requires
            u == 2 * h,
            n == l,
            pow2(149) == u,
    ;
    crate::accuracy::lemma_exact_product(TWO, sigma, l, 149);
    let two = fmul(TWO, sigma);
    let nn = (l * l) as nat;
    assert(1 <= nn <= 0x10_0000) by (nonlinear_arith)
        requires
            nn == l * l,
            1 <= l <= 1024,
    ;
    assert((n * u) * (n * h) == (nn * pow2(148)) * u) by (nonlinear_arith)
        requires
            nn == n * n,
            h == pow2(148),
    ;
    crate::accuracy::lemma_exact_product(two, sigma, nn, 148);
    let below = fmul(two, sigma);
    let k = nn as int;
    assert(value(below) == k * h);
    assert(k * h > 0 && s * q > 0) by (nonlinear_arith)
        requires
            k >= 1,
            h > 0,
            s >= 2,
            q > 0,
    ;
    lemma_zero(below);
    lemma_zero(sum);
    lemma_negated(sum);
    lemma_zero(negated(sum));
    let top = negated(sum);
    assert(magnitude(top) == s * q && magnitude(below) == k * h);
    assert(negative(top) && !negative(below));
    let w = pow2(276) as int;
    lemma_pow2_strictly_increases(149, 276);
    assert((s * q) * u >= (k * h) * 0x80_0000) by (nonlinear_arith)
        requires
            s >= 2,
            h == 2 * q,
            1 <= k <= 0x10_0000,
            u >= 0x1_0000_0000_0000,
            q > 0,
    ;
    assert((s * q) * u <= (k * h) * w) by (nonlinear_arith)
        requires
            0 < s <= 0x80_0000,
            h == 2 * q,
            k >= 1,
            u * 0x1_0000_0000 <= w,
            u > 0,
            q > 0,
    ;
    lemma_near_share(top, below);
    let t = magnitude(taper_of(i, j, l)) as int;
    assert((s * q) * u == (s * u) * q) by (nonlinear_arith);
    assert(k * h == (2 * k) * q) by (nonlinear_arith)
        requires
            h == 2 * q,
    ;
    lemma_near_cancel(t, s * u, 2 * k, q, 1);
}

/// Novelty sets what comes before a moment against what comes after it: likeness of two
/// chords on the same side of the moment counts for a change there, likeness across the
/// moment against it.
pub proof fn law_novelty_sides<M: Fn(Function, Bits) -> Bits>(m: &M, l: nat, i: nat, j: nat, v: Bits)
    requires
        i < 2 * l,
        j < 2 * l,
        l <= 0x8000,
        is_kernel_at(m, l, i, j, v),
        // the exponential is positive
        forall|g: Bits| #[trigger]
            gives(m, Function::Exp, taper_of(i, j, l), g) ==> is_finite(g) && one() <= 0x1_0000 * value(g) <= 0x1_0000
                * one(),
    ensures
        (i < l) == (j < l) ==> value(v) > 0,
        (i < l) != (j < l) ==> value(v) < 0,
{
    lemma_one();
    lemma_rails();
    lemma_offset(i, l);
    lemma_offset(j, l);
    lemma_zero(0);
    let u = one();
    let a = 2 * (i - l) + 1;
    let b = 2 * (j - l) + 1;
    assert((a * u < 0) == (a < 0) && (b * u < 0) == (b < 0)) by (nonlinear_arith)
        requires
            u > 0,
    ;
    let g = choose|g: Bits| #[trigger]
        gives(m, Function::Exp, taper_of(i, j, l), g) && v == fmul(
            if same_side(i, j, l) {
                ONE
            } else {
                MINUS_ONE
            },
            g,
        );
    assert(same_side(i, j, l) == ((i < l) == (j < l)));
    lemma_signed(same_side(i, j, l), g);
}

proof fn lemma_signed(plus: bool, g: Bits)
    requires
        is_finite(g),
        one() <= 0x1_0000 * value(g) <= 0x1_0000 * one(),
    ensures
        plus ==> value(fmul(ONE, g)) > 0,
        !plus ==> value(fmul(MINUS_ONE, g)) < 0,
{
    lemma_fine();
    lemma_rails();
    lemma_one();
    let u = one();
    let sign = if plus {
        ONE
    } else {
        MINUS_ONE
    };
    lemma_zero(g);
    assert(!negative(g));
    assert(magnitude(g) == value(g));
    assert(unsigned(MINUS_ONE) == ONE && unsigned(ONE) == ONE);
    assert(magnitude(sign) == magnitude(ONE) && magnitude(ONE) == u);
    assert(is_finite(sign));
    let x = magnitude(g) as int;
    lemma_pow2_strictly_increases(149, 276);
    let w = pow2(276) as int;
    assert(u * x >= u * 0x80_0000) by (nonlinear_arith)
        requires
            u <= 0x1_0000 * x,
            u >= 0x1_0000_0000_0000,
    ;
    assert(u * x <= u * w) by (nonlinear_arith)
        requires
            x <= u,
            u <= w,
            u > 0,
    ;
    lemma_near_magnitude(sign, g);
    let v = fmul(sign, g);
    let y = magnitude(v) as int;
    let p = (magnitude(sign) * magnitude(g)) as int;
    assert(p == u * x);
    assert(p > 0) by (nonlinear_arith)
        requires
            p == u * x,
            x > 0,
            u > 0,
    ;
    assert(y > 0) by (nonlinear_arith)
        requires
            -(1 * p) <= (y * u - p) * 0x100_0000,
            p > 0,
            y >= 0,
    ;
}

/// Novelty looks two seconds back and two seconds ahead: as many hops on each side as go
/// into two seconds, up to rounding, but at least eight.
pub proof fn law_novelty_looks_two_seconds(hop: Bits)
    requires
        is_finite(hop),
        one() <= 0x1_0000 * value(hop),
        value(hop) <= 0x1_0000 * one(),
    ensures
        ({
            let r = reach_of(hop);
            let h = value(hop);
            &&& r >= 8
            &&& r > 8 ==> (r * h) * 0x100_0000 <= (2 * one()) * 0x100_0002
            &&& (2 * one()) * 0xff_fffe <= ((r + 1) * h) * 0x100_0001
        }),
{
    lemma_one();
    lemma_fine();
    lemma2_to64();
    lemma_pow2_adds(21, 128);
    lemma_pow2_adds(23, 128);
    let u = one();
    let h = value(hop);
    assert(unsigned(NOVELTY_SECS) == NOVELTY_SECS && !negative(NOVELTY_SECS));
    assert(last_digit(NOVELTY_SECS) == 128 && significand(NOVELTY_SECS) == 0x80_0000);
    assert(value(NOVELTY_SECS) == 4 * u);
    lemma_times(NOVELTY_SECS, hop);
    let k = crate::scalar::truncated(crate::scalar::fdiv(NOVELTY_SECS, hop)) as int;
    assert(k == crate::single::at_most_index(k as nat));
    let r = reach_of(hop) as int;
    let n = k / 2;
    assert(k <= 2 * n + 1 && 2 * n <= k);
    assert((2 * n) * h <= k * h && (k + 1) * h <= (2 * (n + 1)) * h && (n + 1) * h <= (r + 1) * h) by (nonlinear_arith)
        requires
            2 * n <= k,
            k <= 2 * n + 1,
            n <= r,
            h > 0,
    ;
    assert((2 * n) * h == 2 * (n * h)) by (nonlinear_arith);
    assert((2 * (n + 1)) * h == 2 * ((n + 1) * h)) by (nonlinear_arith);
    assert((r + 1) * h >= h) by (nonlinear_arith)
        requires
            r >= 0,
            h > 0,
    ;
    if r > 8 {
        assert(r == n);
        // a hop is less than a second where more than eight go into two seconds
        assert(n * h >= 9 * h) by (nonlinear_arith)
            requires
                n >= 9,
                h > 0,
        ;
    }
}

// ---- Correlation ------------------------------------------------------------

/// Only band `j` is not silent.
pub open spec fn is_only_band(bands: Seq<(Bits, Bits)>, j: int) -> bool {
    &&& 0 <= j < bands.len()
    &&& forall|k: int| 0 <= k < bands.len() ==> is_finite((#[trigger] bands[k]).0)
    &&& forall|k: int| 0 <= k < bands.len() && k != j ==> (#[trigger] bands[k]).1 == 0
    &&& -one() <= value(bands[j].0) <= one()
    &&& is_finite(bands[j].1) && one() <= 1024 * value(bands[j].1) && value(bands[j].1) <= one()
}

proof fn lemma_only_band(bands: Seq<(Bits, Bits)>, j: int, a: int, b: int)
    requires
        is_only_band(bands, j),
        0 <= a <= b <= bands.len(),
        is_finite(fmul(bands[j].0, bands[j].1)),
    ensures
        is_finite(weighted_sum(bands, a, b)) && is_finite(weight_sum(bands, a, b)),
        a <= j < b ==> value(weighted_sum(bands, a, b)) == value(fmul(bands[j].0, bands[j].1)) && value(
            weight_sum(bands, a, b),
        ) == value(bands[j].1),
        !(a <= j < b) ==> value(weighted_sum(bands, a, b)) == 0 && value(weight_sum(bands, a, b)) == 0,
    decreases b - a,
{
    lemma_zero(0);
    assert(is_finite(0) && value(0) == 0);
    if b > a {
        lemma_only_band(bands, j, a, b - 1);
        let p = bands[b - 1];
        let x = weighted_sum(bands, a, b - 1);
        let y = weight_sum(bands, a, b - 1);
        if b - 1 == j {
            lemma_after_nothing(x, fmul(p.0, p.1));
            lemma_after_nothing(y, p.1);
        } else {
            assert(p.1 == 0);
            lemma_times_nothing(p.0);
            lemma_after_nothing(fmul(p.0, p.1), x);
            lemma_after_nothing(p.1, y);
        }
    }
}

/// A pixel of the correlation curve shows the bands that sound: where only one of its bands
/// does, it shows that band's correlation, up to rounding, and where none does, nothing.
pub proof fn law_curve_shows_sounding_band(bands: Seq<(Bits, Bits)>, lo_hz: Bits, hi_hz: Bits, rate: u32, j: int)
    requires
        is_only_band(bands, j),
        curve_bins(lo_hz, hi_hz, rate, bands.len()) is Some,
    ensures
        ({
            let (a, b) = curve_bins(lo_hz, hi_hz, rate, bands.len())->0;
            let p = curve_point(bands, lo_hz, hi_hz, rate);
            if a <= j < b {
                p matches Some((c, w)) && -(4096 * fine()) <= value(c) - value(bands[j].0) <= 4096 * fine()
            } else {
                p is None
            }
        }),
{
    lemma_fine();
    lemma_one();
    lemma2_to64();
    let u = one();
    let g = fine();
    let (a, b) = curve_bins(lo_hz, hi_hz, rate, bands.len())->0;
    let c = bands[j].0;
    let v = bands[j].1;
    let x = value(c);
    let w = value(v);
    assert(is_finite(c));
    assert(-(1 * (u * u)) <= x * w <= 1 * (u * u)) by (nonlinear_arith)
        requires
            -u <= x <= u,
            0 <= w <= u,
            u > 0,
    ;
    lemma_product_off(c, v, 1);
    lemma_only_band(bands, j, a as int, b as int);
    assert(unsigned(MILLIONTH) == MILLIONTH && !negative(MILLIONTH));
    assert(last_digit(MILLIONTH) == 106 && significand(MILLIONTH) == 0x86_37bd);
    lemma_pow2_adds(24, 106);
    lemma_pow2_adds(19, 130);
    lemma_pow2_pos(106);
    assert(0 < value(MILLIONTH) && 0x8_0000 * value(MILLIONTH) < u);
    if a <= j < b {
        let total = weighted_sum(bands, a as int, b as int);
        let weight = weight_sum(bands, a as int, b as int);
        let p = value(total);
        assert(-(2 * w) <= p <= 2 * w) by (nonlinear_arith)
            requires
                -(2 * (g * u)) <= p * u - x * w <= 2 * (g * u),
                -u <= x <= u,
                u <= 1024 * w,
                u == g * 0x100_0000,
                g > 0,
        ;
        lemma_quotient_off(total, weight, 2);
        let q = value(crate::scalar::fdiv(total, weight));
        assert(2 * (g * u) <= 2048 * (g * w)) by (nonlinear_arith)
            requires
                u <= 1024 * w,
                g > 0,
        ;
        let d = q - x;
        assert(d * w == q * w - x * w) by (nonlinear_arith)
            requires
                d == q - x,
        ;
        assert(-(2051 * (g * w)) <= d * w <= 2051 * (g * w));
        assert(-(2051 * g) <= d <= 2051 * g) by (nonlinear_arith)
            requires
                -(2051 * (g * w)) <= d * w <= 2051 * (g * w),
                w > 0,
        ;
    }
}

} // verus!
