//! What holds of automatic detection as a whole: which peaks become splits, what
//! sensitivity does, where harmony is looked up, and where an onset draws a split to.

use vstd::prelude::*;
use vstd::arithmetic::div_mod::*;
use vstd::arithmetic::power2::*;
use vstd::multiset::*;
use crate::accuracy::{is_near, one, lemma_near_coarser, lemma_near_factor, lemma_near_product, lemma_one, lemma_product_error, lemma_small_number, lemma_times};
use crate::arith::number;
use crate::curves::{grain, lemma_divided, lemma_product, lemma_sum_error, lemma_units};
use crate::detect::{ONSET_LEAST, ONSET_REACH, SENSITIVITY_SPAN, STRICTEST, WINDOW_SECS, aligned, comes_first, gap, has_room, in_time, is_choice, is_peak, is_ranking, most_splits, off_edges, on_onset, place_on, strongest, strongest_onset, taken, threshold_of, top, window_time, window_times};
use crate::dsp::lemma_absolute;
use crate::plan::{least, minus};
use crate::scalar::{fabs, fadd, fdiv, fmax, fmul, fsub, negated, truncated, lemma_negated};
use crate::single::{Bits, HALF, MILLIONTH, ONE, at_most, at_most_index, is_finite, is_nan, last_digit, less, magnitude, significand, unsigned, value, lemma_zero};

verus! {

// ---- Which peaks become splits ----------------------------------------------

/// A window that is taken was on the list.
proof fn lemma_taken_listed(list: Seq<usize>, n: nat, limit: nat, k: int, w: usize)
    requires
        0 <= k <= list.len(),
        taken(list, n, limit, k).contains(w),
    ensures
        list.take(k).contains(w),
        30 <= w,
        w + 30 <= n,
    decreases k,
{
    if k > 0 {
        let before = taken(list, n, limit, k - 1);
        let now = taken(list, n, limit, k);
        let i = choose|i: int| 0 <= i < now.len() && now[i] == w;
        if i < before.len() {
            assert(before[i] == w);
            lemma_taken_listed(list, n, limit, k - 1, w);
            let first = list.take(k - 1);
            let j = choose|j: int| 0 <= j < first.len() && first[j] == w;
            assert(list.take(k)[j] == w);
        } else {
            assert(w == list[k - 1]);
            assert(list.take(k)[k - 1] == w);
        }
    }
}

/// What is taken of the first ones is taken of more.
proof fn lemma_taken_kept(list: Seq<usize>, n: nat, limit: nat, j: int, k: int, w: usize)
    requires
        0 <= j <= k <= list.len(),
        taken(list, n, limit, j).contains(w),
    ensures
        taken(list, n, limit, k).contains(w),
    decreases k,
{
    if j < k {
        lemma_taken_kept(list, n, limit, j, k - 1, w);
        let before = taken(list, n, limit, k - 1);
        let now = taken(list, n, limit, k);
        let i = choose|i: int| 0 <= i < before.len() && before[i] == w;
        assert(now[i] == w);
    }
}

/// A window of the list that is not taken lies near an end, near one that came before
/// it and is taken, or there are as many as there may be.
proof fn lemma_not_taken(list: Seq<usize>, n: nat, limit: nat, k: int, i: int)
    requires
        0 <= i < k <= list.len(),
        !taken(list, n, limit, k).contains(list[i]),
    ensures
        list[i] < 30 || list[i] + 30 > n || taken(list, n, limit, k).len() >= limit || exists|j: int|
            0 <= j < i && taken(list, n, limit, k).contains(#[trigger] list[j]) && gap(list[j], list[i]) < 30,
    decreases k,
{
    let before = taken(list, n, limit, k - 1);
    let now = taken(list, n, limit, k);
    if i < k - 1 {
        if before.contains(list[i]) {
            lemma_taken_kept(list, n, limit, k - 1, k, list[i]);
        }
        lemma_not_taken(list, n, limit, k - 1, i);
        if exists|j: int| 0 <= j < i && before.contains(#[trigger] list[j]) && gap(list[j], list[i]) < 30 {
            let j = choose|j: int| 0 <= j < i && before.contains(#[trigger] list[j]) && gap(list[j], list[i]) < 30;
            lemma_taken_kept(list, n, limit, k - 1, k, list[j]);
        }
    } else {
        let w = list[i];
        if before.len() < limit && 30 <= w && w + 30 <= n {
            if has_room(before, w, n) {
                assert(now[before.len() as int] == w);
            }
            let a = choose|a: int| 0 <= a < before.len() && gap(#[trigger] before[a], w) < 30;
            assert(before.contains(before[a]));
            lemma_taken_listed(list, n, limit, k - 1, before[a]);
            let first = list.take(k - 1);
            let j = choose|j: int| 0 <= j < first.len() && first[j] == before[a];
            assert(list[j] == before[a]);
            lemma_taken_kept(list, n, limit, k - 1, k, list[j]);
        }
    }
}

/// A window becomes a split only where the curve has a peak: it reaches the threshold,
/// nothing within a second to either side is above it, and the ends of the file are at
/// least three seconds away.
pub proof fn law_splits_are_peaks(c: Seq<Bits>, threshold: Bits, duration: Bits, out: Seq<usize>, w: usize)
    requires
        is_choice(c, threshold, duration, out),
        out.contains(w),
    ensures
        30 <= w,
        w + 30 <= c.len(),
        !less(c[w as int], threshold),
        forall|j: int|
            0 <= j < c.len() && w - 10 <= j <= w + 10 ==> !is_nan(#[trigger] c[j]) && value(c[j]) <= value(c[w as int]),
{
    let list = choose|list: Seq<usize>| #[trigger]
        is_ranking(c, threshold, list) && in_time(out) && out.to_multiset() == taken(
            list,
            c.len(),
            most_splits(duration),
            list.len() as int,
        ).to_multiset();
    let some = taken(list, c.len(), most_splits(duration), list.len() as int);
    lemma_same_members(out, some, w);
    lemma_taken_listed(list, c.len(), most_splits(duration), list.len() as int, w);
    assert(list.take(list.len() as int) =~= list);
    let k = choose|k: int| 0 <= k < list.len() && list[k] == w;
    assert(is_peak(c, threshold, list[k] as int));
}

proof fn lemma_same_members(a: Seq<usize>, b: Seq<usize>, w: usize)
    requires
        a.to_multiset() == b.to_multiset(),
    ensures
        a.contains(w) <==> b.contains(w),
{
    a.to_multiset_ensures();
    b.to_multiset_ensures();
    assert(a.contains(w) <==> a.to_multiset().count(w) > 0);
    assert(b.contains(w) <==> b.to_multiset().count(w) > 0);
}

/// The strongest peaks win: where the curve has a peak that did not become a split, it
/// lies within three seconds of an end of the file or of a split that is at least as
/// strong, or there are as many splits as there may be.
pub proof fn law_strongest_peaks_win(c: Seq<Bits>, threshold: Bits, duration: Bits, out: Seq<usize>, w: usize)
    requires
        is_choice(c, threshold, duration, out),
        10 <= w < c.len() - 10,
        !less(c[w as int], threshold),
        forall|j: int|
            0 <= j < c.len() && w - 10 <= j <= w + 10 ==> !is_nan(#[trigger] c[j]) && value(c[j]) <= value(c[w as int]),
        !out.contains(w),
    ensures
        w < 30 || w + 30 > c.len() || out.len() >= most_splits(duration) || exists|v: usize|
            #[trigger] out.contains(v) && gap(v, w) < 30 && value(c[w as int]) <= value(c[v as int]),
{
    let limit = most_splits(duration);
    let list = choose|list: Seq<usize>| #[trigger]
        is_ranking(c, threshold, list) && in_time(out) && out.to_multiset() == taken(
            list,
            c.len(),
            limit,
            list.len() as int,
        ).to_multiset();
    let some = taken(list, c.len(), limit, list.len() as int);
    out.to_multiset_ensures();
    some.to_multiset_ensures();
    assert(!is_nan(c[w as int]));
    assert(is_peak(c, threshold, w as int));
    let i = choose|i: int| 0 <= i < list.len() && list[i] == w as int;
    lemma_same_members(out, some, w);
    lemma_not_taken(list, c.len(), limit, list.len() as int, i);
    if exists|j: int| 0 <= j < i && some.contains(#[trigger] list[j]) && gap(list[j], list[i]) < 30 {
        let j = choose|j: int| 0 <= j < i && some.contains(#[trigger] list[j]) && gap(list[j], list[i]) < 30;
        lemma_same_members(out, some, list[j]);
        assert(comes_first(c, list[j] as int, list[i] as int));
        assert(is_peak(c, threshold, list[j] as int));
        assert(at_most(c[list[j] as int], c[list[j] as int]));
        assert(out.contains(list[j]));
    }
}

/// Every split of a curve is the middle of a window with a peak.
pub proof fn law_split_times_are_windows(list: Seq<usize>, duration: Bits, t: Bits)
    requires
        window_times(list, duration).contains(t),
    ensures
        off_edges(t, duration),
        exists|w: usize| #[trigger] list.contains(w) && t == window_time(w),
    decreases list.len(),
{
    if list.len() > 0 {
        let rest = list.drop_last();
        let before = window_times(rest, duration);
        let now = window_times(list, duration);
        let i = choose|i: int| 0 <= i < now.len() && now[i] == t;
        if i < before.len() {
            assert(before[i] == t);
            law_split_times_are_windows(rest, duration, t);
            let w = choose|w: usize| #[trigger] rest.contains(w) && t == window_time(w);
            let k = choose|k: int| 0 <= k < rest.len() && rest[k] == w;
            assert(list[k] == w);
            assert(list.contains(w));
        } else {
            assert(list.contains(list.last()));
        }
    }
}

// ---- Sensitivity ------------------------------------------------------------

/// The constants of the threshold, by their values.
proof fn lemma_threshold_constants()
    ensures
        is_finite(STRICTEST) && value(STRICTEST) == 6 * one(),
        is_finite(SENSITIVITY_SPAN) && is_near(value(SENSITIVITY_SPAN), 24 * one(), 5, 1),
        is_finite(MILLIONTH) && value(MILLIONTH) > 0,
        is_finite(ONE) && value(ONE) == one(),
{
    lemma_one();
    lemma2_to64();
    lemma_pow2_adds(21, 128);
    lemma_pow2_adds(20, 129);
    lemma_pow2_adds(22, 127);
    lemma_pow2_adds(23, 126);
    lemma_pow2_pos(106);
    assert(unsigned(STRICTEST) == STRICTEST && last_digit(STRICTEST) == 128 && significand(STRICTEST) == 0xc0_0000);
    assert(unsigned(SENSITIVITY_SPAN) == SENSITIVITY_SPAN && last_digit(SENSITIVITY_SPAN) == 128 && significand(
        SENSITIVITY_SPAN,
    ) == 0x99_999a) by {
        assert(unsigned(SENSITIVITY_SPAN) / 0x80_0000 == 129);
    }
    let e = pow2(128) as int;
    assert(0xc0_0000 * e == 6 * (0x20_0000 * e)) by (nonlinear_arith);
    assert(value(SENSITIVITY_SPAN) == 0x99_999a * e);
    assert(one() == 0x20_0000 * e);
    assert(unsigned(MILLIONTH) == MILLIONTH && last_digit(MILLIONTH) == 106 && significand(MILLIONTH) == 0x86_37bd) by {
        assert(unsigned(MILLIONTH) / 0x80_0000 == 107);
    }
    assert(value(MILLIONTH) > 0) by (nonlinear_arith)
        requires
            value(MILLIONTH) == 0x86_37bd * pow2(106),
            pow2(106) > 0,
    ;
    assert(unsigned(ONE) == ONE && last_digit(ONE) == 126 && significand(ONE) == 0x80_0000);
}

/// The multiple of the median that a peak must reach.
proof fn lemma_multiple(s: Bits)
    requires
        is_finite(s),
        0 <= value(s) <= one(),
    ensures
        ({
            let x = fsub(STRICTEST, fmul(s, SENSITIVITY_SPAN));
            &&& is_finite(x)
            &&& -one() <= 0x1_0000 * (5 * value(x) - (30 * one() - 24 * value(s))) <= one()
        }),
{
    lemma_one();
    lemma_units();
    lemma_threshold_constants();
    let u = one();
    let g = grain();
    let v = value(s);
    let c = value(SENSITIVITY_SPAN);
    assert(-(24 * u) <= (c * 5 - 24 * u) * 0x100_0000 <= 24 * u);
    assert(0 <= c <= 5 * u);
    assert(0 <= v * c <= 5 * (u * u)) by (nonlinear_arith)
        requires
            0 <= v <= u,
            0 <= c <= 5 * u,
    ;
    lemma_product(s, SENSITIVITY_SPAN, 5);
    let p = value(fmul(s, SENSITIVITY_SPAN));
    let w = g * u;
    assert(-(6 * w) <= p * u - v * c <= 6 * w);
    // c is 24 fifths
    assert(-((24 * g) * u) <= 5 * (v * c) - (24 * v) * u <= (24 * g) * u) by (nonlinear_arith)
        requires
            -(24 * u) <= (c * 5 - 24 * u) * 0x100_0000 <= 24 * u,
            u == g * 0x100_0000,
            0 <= v <= u,
            g >= 1,
            -(24 * g) <= c * 5 - 24 * u <= 24 * g,
    ;
    assert((5 * p - 24 * v) * u == 5 * (p * u - v * c) + (5 * (v * c) - (24 * v) * u)) by (nonlinear_arith);
    assert((54 * g) * u == 5 * (6 * w) + (24 * g) * u) by (nonlinear_arith)
        requires
            w == g * u,
    ;
    lemma_divided(5 * p - 24 * v, 54 * g, u);
    let n = fmul(s, SENSITIVITY_SPAN);
    lemma_negated(n);
    assert(-(8 * u) <= 6 * u - p <= 8 * u);
    lemma_sum_error(STRICTEST, negated(n), 8);
}

/// A higher sensitivity never asks more of a peak: the threshold falls from six times
/// the median at none to six fifths of it at full sensitivity.
pub proof fn law_sensitivity_lowers_threshold(median: Bits, s: Bits)
    requires
        is_finite(median),
        value(MILLIONTH) <= value(median) <= 1024 * one(),
        is_finite(s),
        0 <= value(s) <= one(),
    ensures
        is_finite(threshold_of(median, s)),
        // the median times 6 - 4.8 times the sensitivity
        -(value(median) * one()) <= 0x1000 * (5 * (value(threshold_of(median, s)) * one()) - value(median) * (30 * one()
            - 24 * value(s))) <= value(median) * one(),
{
    lemma_one();
    lemma_units();
    lemma_threshold_constants();
    lemma_multiple(s);
    lemma2_to64();
    let u = one();
    let v = value(s);
    let m = value(median);
    let x = fsub(STRICTEST, fmul(s, SENSITIVITY_SPAN));
    let y = value(x);
    assert(u <= y <= 7 * u);
    lemma_zero(median);
    assert(fmax(median, MILLIONTH) == median);
    assert(m > 0);
    assert(m >= 0x80_0000) by {
        lemma_pow2_pos(106);
        assert(unsigned(MILLIONTH) / 0x80_0000 == 107);
        assert(magnitude(MILLIONTH) >= 0x86_37bd) by (nonlinear_arith)
            requires
                magnitude(MILLIONTH) == 0x86_37bd * pow2(106),
                pow2(106) >= 1,
        ;
    }
    assert(m * y >= u * 0x80_0000) by (nonlinear_arith)
        requires
            m >= 0x80_0000,
            y >= u,
            u > 0,
    ;
    assert(m * y <= u * pow2(276)) by {
        lemma_pow2_adds(14, 149);
        lemma_pow2_strictly_increases(163, 276);
        assert(m * y <= (1024 * u) * (7 * u)) by (nonlinear_arith)
            requires
                0 <= m <= 1024 * u,
                0 <= y <= 7 * u,
        ;
        assert((1024 * u) * (7 * u) <= u * pow2(276)) by (nonlinear_arith)
            requires
                0x4000 * u <= pow2(276),
                u > 0,
        ;
    }
    lemma_near_product(median, x);
    let t = value(threshold_of(median, s));
    let my = m * y;
    assert(-my <= (t * u - my) * 0x100_0000 <= my);
    assert(my <= 7 * (m * u)) by (nonlinear_arith)
        requires
            my == m * y,
            y <= 7 * u,
            m >= 0,
    ;
    let z = 30 * u - 24 * v;
    let d = 5 * y - z;
    assert(5 * my - m * z == m * d) by (nonlinear_arith)
        requires
            my == m * y,
            d == 5 * y - z,
    ;
    assert(-(m * u) <= 0x1_0000 * (m * d) <= m * u) by (nonlinear_arith)
        requires
            -u <= 0x1_0000 * d <= u,
            m >= 0,
    ;
}

/// What is a peak at a low sensitivity is one at a high sensitivity: a lower threshold
/// loses none.
pub proof fn law_lower_threshold_keeps_peaks(c: Seq<Bits>, low: Bits, high: Bits, i: int)
    requires
        at_most(low, high),
        is_peak(c, high, i),
    ensures
        is_peak(c, low, i),
{
    assert(at_most(c[i], c[i]));
}

/// The change at a window is that of loudness or that of harmony, whichever is stronger.
pub proof fn law_stronger_change_counts(a: Seq<Bits>, b: Seq<Bits>, i: int)
    requires
        0 <= i < a.len(),
        !is_nan(a[i]),
        !is_nan(b[i]),
    ensures
        strongest(a, b).len() == a.len(),
        strongest(a, b)[i] == a[i] || strongest(a, b)[i] == b[i],
        value(strongest(a, b)[i]) >= value(a[i]),
        value(strongest(a, b)[i]) >= value(b[i]),
{
}

/// The peak of a window is its largest sample, whatever its sign.
pub proof fn law_top_is_largest(s: Seq<Bits>, a: int, n: int)
    requires
        0 <= n,
        forall|i: int| a <= i < a + n ==> !is_nan(#[trigger] s[i]),
    ensures
        !is_nan(top(s, a, n)),
        forall|i: int| a <= i < a + n ==> magnitude(#[trigger] s[i]) <= value(top(s, a, n)),
        value(top(s, a, n)) == 0 || exists|i: int| a <= i < a + n && magnitude(#[trigger] s[i]) == value(top(s, a, n)),
    decreases n,
{
    lemma_zero(0);
    if n > 0 {
        law_top_is_largest(s, a, n - 1);
        let x = s[a + n - 1];
        lemma_absolute(x);
        let before = top(s, a, n - 1);
        if !less(before, fabs(x)) && value(before) != 0 {
            let i = choose|i: int| a <= i < a + n - 1 && magnitude(#[trigger] s[i]) == value(before);
            assert(a <= i < a + n && magnitude(s[i]) == value(top(s, a, n)));
        } else if less(before, fabs(x)) {
            assert(magnitude(s[a + n - 1]) == value(top(s, a, n)));
        }
    }
}

// ---- Places and times -------------------------------------------------------

proof fn lemma_tenth()
    ensures
        is_finite(WINDOW_SECS),
        is_near(value(WINDOW_SECS), one(), 10, 1),
        is_finite(HALF),
        2 * value(HALF) == one(),
        is_finite(ONSET_REACH),
        2 * value(ONSET_REACH) == 3 * one(),
        is_finite(ONSET_LEAST),
        is_near(value(ONSET_LEAST), one(), 5, 1),
{
    lemma_one();
    lemma2_to64();
    lemma_pow2_adds(27, 122);
    lemma_pow2_adds(26, 123);
    lemma_pow2_adds(24, 125);
    lemma_pow2_adds(23, 126);
    assert(unsigned(WINDOW_SECS) == WINDOW_SECS && last_digit(WINDOW_SECS) == 122 && significand(WINDOW_SECS)
        == 0xcc_cccd) by {
        assert(unsigned(WINDOW_SECS) / 0x80_0000 == 123);
    }
    assert(unsigned(ONSET_LEAST) == ONSET_LEAST && last_digit(ONSET_LEAST) == 123 && significand(ONSET_LEAST)
        == 0xcc_cccd) by {
        assert(unsigned(ONSET_LEAST) / 0x80_0000 == 124);
    }
    assert(unsigned(HALF) == HALF && last_digit(HALF) == 125 && significand(HALF) == 0x80_0000);
    assert(unsigned(ONSET_REACH) == ONSET_REACH && last_digit(ONSET_REACH) == 126 && significand(ONSET_REACH)
        == 0xc0_0000);
    let a = pow2(122) as int;
    let b = pow2(123) as int;
    let c = pow2(125) as int;
    let d = pow2(126) as int;
    assert(value(WINDOW_SECS) == 0xcc_cccd * a && one() == 0x800_0000 * a);
    assert(value(ONSET_LEAST) == 0xcc_cccd * b && one() == 0x400_0000 * b);
    assert(value(HALF) == 0x80_0000 * c && one() == 0x100_0000 * c);
    assert(value(ONSET_REACH) == 0xc0_0000 * d && one() == 0x80_0000 * d);
}

/// The time of a window is its middle: windows are a tenth of a second long, so that
/// window `w` stands for the time `(w + 1/2) / 10`, up to rounding.
pub proof fn law_window_time(w: usize)
    requires
        w <= 0x40_0000,
    ensures
        is_finite(window_time(w)),
        is_near(value(window_time(w)), (2 * w + 1) * one(), 20, 4),
{
    lemma_one();
    lemma_tenth();
    lemma2_to64();
    lemma_small_number(w as nat);
    lemma_pow2_unfold(149);
    let u = one();
    let half = pow2(148) as int;
    let n = (2 * w + 1) as int;
    assert(w * u + value(HALF) == n * half) by (nonlinear_arith)
        requires
            u == 2 * half,
            2 * value(HALF) == u,
            n == 2 * w + 1,
    ;
    crate::accuracy::lemma_exact_sum(number(w as nat), HALF, n, 148);
    let a = fadd(number(w as nat), HALF);
    let x = value(a);
    let c = value(WINDOW_SECS);
    assert(2 * x == n * u) by (nonlinear_arith)
        requires
            x == n * half,
            u == 2 * half,
    ;
    assert(n * u >= u && n * u <= 0x80_0001 * u) by (nonlinear_arith)
        requires
            1 <= n <= 0x80_0001,
            u > 0,
    ;
    assert(u <= 11 * c && c <= u);
    assert(x * c >= u * 0x80_0000) by {
        lemma_pow2_strictly_increases(40, 125);
        lemma2_to64_rest();
        assert(x * c >= u * 0x80_0000) by (nonlinear_arith)
            requires
                2 * x >= u,
                11 * c >= u,
                u >= 0x100_0000 * 0x80_0000,
        ;
    }
    assert(x * c <= u * pow2(276)) by {
        lemma_pow2_adds(23, 149);
        lemma_pow2_strictly_increases(172, 276);
        assert(x * c <= (0x80_0000 * u) * u) by (nonlinear_arith)
            requires
                0 <= 2 * x <= 0x80_0001 * u,
                0 <= c <= u,
                u > 0,
        ;
        assert((0x80_0000 * u) * u <= u * pow2(276)) by (nonlinear_arith)
            requires
                0x80_0000 * u <= pow2(276),
                u > 0,
        ;
    }
    lemma_near_product(a, WINDOW_SECS);
    let t = value(window_time(w));
    assert(x * c == c * x) by (nonlinear_arith);
    lemma_near_factor(c, u, 10, 1, t, x, u, 1);
    assert(is_near(t, u * x, 10 * u, 3));
    assert(2 * (u * x) == (n * u) * u) by (nonlinear_arith)
        requires
            2 * x == n * u,
    ;
    crate::accuracy::lemma_near_cancel(t, u * x, 10 * u, 2, 3);
    assert((u * x) * 2 == (n * u) * u && (10 * u) * 2 == 20 * u);
    crate::accuracy::lemma_near_cancel(t, n * u, 20, u, 3);
    lemma_near_coarser(t, n * u, 20, 3, 4);
}

/// Harmony is looked up where the window lies in time: the moment of the curve that is
/// taken starts at the window, or less than a step before it, up to rounding. Past the
/// end of the curve there is no harmony.
pub proof fn law_harmony_at_same_time(curve: Seq<Bits>, hop: Bits, n: nat, i: nat)
    requires
        i < n <= 0x40_0000,
        is_finite(hop),
        one() <= value(hop) * 0x400,
        value(hop) <= 0x1_0000 * one(),
    ensures
        ({
            let k = place_on(i, hop);
            // ten steps to the place, against the tenths of a second to the window
            &&& 10 * (k * value(hop)) * 0x10_0000 <= (i * one()) * 0x10_0001 + 10 * value(hop)
            &&& (i * one()) * 0xf_ffff <= 10 * ((k + 1) * value(hop)) * 0x10_0000 + 10 * value(hop)
            &&& aligned(curve, hop, n).len() == n
            &&& aligned(curve, hop, n)[i as int] == (if k < curve.len() {
                curve[k as int]
            } else {
                0
            })
        }),
{
    lemma_one();
    lemma_tenth();
    lemma2_to64();
    lemma_small_number(i);
    lemma_zero(0);
    lemma_zero(hop);
    let u = one();
    let h = value(hop);
    let c = value(WINDOW_SECS);
    let x = i * u;
    assert(0 <= x <= 0x40_0000 * u) by (nonlinear_arith)
        requires
            x == i * u,
            i <= 0x40_0000,
            u > 0,
    ;
    assert(u <= 11 * c && c <= u);
    assert(x * c <= u * pow2(275)) by {
        lemma_pow2_adds(22, 149);
        lemma_pow2_strictly_increases(171, 275);
        assert(x * c <= (0x40_0000 * u) * u) by (nonlinear_arith)
            requires
                0 <= x <= 0x40_0000 * u,
                0 <= c <= u,
        ;
        assert((0x40_0000 * u) * u <= u * pow2(275)) by (nonlinear_arith)
            requires
                0x40_0000 * u <= pow2(275),
                u > 0,
        ;
    }
    lemma_product_error(number(i), WINDOW_SECS);
    let p = fmul(number(i), WINDOW_SECS);
    let v = value(p);
    let d: int = 0x100_0000;
    let xc = x * c;
    assert(-(xc + u * d) <= (v * u - xc) * d <= xc + u * d);
    // ten times the product is the number of windows
    assert((10 * v) * d <= x * (d + 3) + 10 * d) by (nonlinear_arith)
        requires
            (v * u - xc) * d <= xc + u * d,
            xc == x * c,
            (c * 10 - u) * d <= u,
            x >= 0,
            u > 0,
            d == 0x100_0000,
    ;
    assert(x * (d - 3) - 10 * d <= (10 * v) * d) by (nonlinear_arith)
        requires
            -(xc + u * d) <= (v * u - xc) * d,
            xc == x * c,
            -u <= (c * 10 - u) * d,
            (c * 10 - u) * d <= u,
            x >= 0,
            u > 0,
            d == 0x100_0000,
    ;
    assert(v <= 0x8_0000 * u) by (nonlinear_arith)
        requires
            (10 * v) * d <= x * (d + 3) + 10 * d,
            x <= 0x40_0000 * u,
            u >= 0x100,
            d == 0x100_0000,
    ;
    // on a coarse step
    if v <= h * 0x4000_0000 {
        lemma_times(p, hop);
    } else {
        assert(false) by (nonlinear_arith)
            requires
                v > h * 0x4000_0000,
                v <= 0x8_0000 * u,
                u <= h * 0x400,
                h >= 0,
                u > 0,
        ;
    }
    let k = place_on(i, hop);
    let kh = k * h;
    let kh1 = (k + 1) * h;
    lemma2_to64_rest();
    lemma_pow2_strictly_increases(60, 149);
    assert(h >= 0x1_0000_0000);
    assert(10 * kh * 0x10_0000 <= x * 0x10_0001 + 10 * h) by (nonlinear_arith)
        requires
            kh * d <= v * (d + 1) + h,
            (10 * v) * d <= x * (d + 3) + 10 * d,
            x >= 0,
            v >= 0,
            h >= 0x1_0000_0000,
            d == 0x100_0000,
    ;
    assert(x * 0xf_ffff <= 10 * kh1 * 0x10_0000 + 10 * h) by (nonlinear_arith)
        requires
            v * (d - 1) <= kh1 * d + h,
            x * (d - 3) - 10 * d <= (10 * v) * d,
            x >= 0,
            v >= 0,
            h >= 0x1_0000_0000,
            d == 0x100_0000,
    ;
}

// ---- Onsets -----------------------------------------------------------------

/// The onset that is chosen is one of those looked at, and none of them is stronger.
proof fn lemma_strongest(onset: Seq<Bits>, lo: int, hi: int)
    requires
        0 <= lo < hi <= onset.len(),
        forall|j: int| 0 <= j < onset.len() ==> !is_nan(#[trigger] onset[j]),
    ensures
        lo <= strongest_onset(onset, lo, hi) < hi,
        forall|j: int| lo <= j < hi ==> value(#[trigger] onset[j]) <= value(onset[strongest_onset(onset, lo, hi)]),
    decreases hi - lo,
{
    if hi > lo + 1 {
        lemma_strongest(onset, lo, hi - 1);
        assert(!is_nan(onset[hi - 1]) && !is_nan(onset[strongest_onset(onset, lo, hi - 1)]));
    }
}

/// Does moment `j` of a curve with that step lie within `reach` of a time? All as
/// values.
pub open spec fn lies_within(j: int, hop: int, t: int, reach: int) -> bool {
    -reach <= j * hop - t <= reach
}

/// A split moves to the strongest onset within a second and a half of it, if that has a
/// fifth of the strength of a strong one, and stays where it is otherwise. How far the
/// search reaches is meant up to two steps of the curve.
pub proof fn law_onset_draws_split(t: Bits, onset: Seq<Bits>, hop: Bits)
    requires
        forall|j: int| 0 <= j < onset.len() ==> !is_nan(#[trigger] onset[j]),
        is_finite(hop),
        one() <= 1024 * value(hop) <= 1024 * one(),
        is_finite(t),
        0 <= value(t) <= 4096 * one(),
    ensures
        ({
            let r = on_onset(t, onset, hop);
            let h = value(hop);
            let far = 3 * one() + 4 * h;
            let near = 3 * one() - 4 * h;
            ||| exists|i: int|
                {
                    &&& 0 <= i < onset.len()
                    &&& r == fmul(number(i as nat), hop)
                    &&& #[trigger] lies_within(2 * i, h, 2 * value(t), far)
                    &&& 5 * value(onset[i]) >= one()
                    &&& forall|j: int|
                        0 <= j < onset.len() && #[trigger] lies_within(2 * j, h, 2 * value(t), near) ==> value(onset[j])
                            <= value(onset[i])
                }
            ||| r == t && forall|j: int|
                0 <= j < onset.len() && #[trigger] lies_within(2 * j, h, 2 * value(t), near) ==> 0x10_0000 * (5 * value(
                    onset[j],
                )) <= 0x10_0001 * one()
        }),
{
    lemma_one();
    lemma_tenth();
    lemma2_to64();
    lemma_zero(0);
    lemma_zero(hop);
    let u = one();
    let h = value(hop);
    let tv = value(t);
    let near = 3 * u - 4 * h;
    if onset.len() == 0 {
        assert(on_onset(t, onset, hop) == t);
        return ;
    }
    assert(h > 0);
    lemma_times(t, hop);
    lemma_times(ONSET_REACH, hop);
    let center = at_most_index(truncated(fdiv(t, hop)));
    let reach = at_most_index(truncated(fdiv(ONSET_REACH, hop)));
    let k = center as int;
    let w = reach as int;
    let kh = k * h;
    let wh = w * h;
    assert((k + 1) * h == kh + h && (w + 1) * h == wh + h) by (nonlinear_arith)
        requires
            kh == k * h,
            wh == w * h,
    ;
    let lo = minus(center, reach) as int;
    let hi = least(center + reach + 1, onset.len()) as int;
    // every moment within the nearer bound is looked at
    assert forall|j: int| 0 <= j < onset.len() && #[trigger] lies_within(2 * j, h, 2 * tv, near) implies lo <= j
        < hi by {
        let jh = j * h;
        assert((2 * j) * h == 2 * jh) by (nonlinear_arith)
            requires
                jh == j * h,
        ;
        assert(2 * jh - 2 * tv <= 3 * u - 4 * h);
        assert(j <= k + w) by {
            if j > k + w {
                assert(jh >= kh + wh + h) by (nonlinear_arith)
                    requires
                        jh == j * h,
                        kh == k * h,
                        wh == w * h,
                        j >= k + w + 1,
                        h > 0,
                ;
            }
        }
        assert(j >= k - w) by {
            if j < k - w {
                assert(jh <= kh - wh - h) by (nonlinear_arith)
                    requires
                        jh == j * h,
                        kh == k * h,
                        wh == w * h,
                        j <= k - w - 1,
                        h > 0,
                ;
            }
        }
    }
    if lo >= hi {
        assert(on_onset(t, onset, hop) == t);
    } else {
        lemma_strongest(onset, lo, hi);
        let best = strongest_onset(onset, lo, hi);
        assert(!is_nan(onset[best]));
        if less(onset[best], ONSET_LEAST) {
            assert(on_onset(t, onset, hop) == t);
            assert forall|j: int| 0 <= j < onset.len() && #[trigger] lies_within(2 * j, h, 2 * tv, near) implies 0x10_0000
                * (5 * value(onset[j])) <= 0x10_0001 * u by {
                assert(value(onset[j]) <= value(onset[best]));
            }
        } else {
            let bh = best * h;
            assert((2 * best) * h == 2 * bh) by (nonlinear_arith)
                requires
                    bh == best * h,
            ;
            assert(kh - wh <= bh <= kh + wh) by (nonlinear_arith)
                requires
                    bh == best * h,
                    kh == k * h,
                    wh == w * h,
                    k - w <= best <= k + w,
                    h > 0,
            ;
            assert(lies_within(2 * best, h, 2 * tv, 3 * u + 4 * h));
            assert(5 * value(ONSET_LEAST) >= u) by {
                assert(value(ONSET_LEAST) == 0xcc_cccd * pow2(123)) by {
                    assert(unsigned(ONSET_LEAST) / 0x80_0000 == 124);
                    assert(last_digit(ONSET_LEAST) == 123 && significand(ONSET_LEAST) == 0xcc_cccd);
                }
                lemma_pow2_adds(26, 123);
            }
        }
    }
}

} // verus!
