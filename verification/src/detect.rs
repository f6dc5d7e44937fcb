//! Automatic zone detection.
//!
//! The file is cut into windows of a tenth of a second. A curve says how much
//! the sound changes at each window: in loudness and crest, or in harmony. Its
//! strongest peaks become splits, as long as they keep their distance from each
//! other and from the ends of the file, and each split then moves to the
//! strongest onset nearby.

use vstd::prelude::*;
use vstd::multiset::*;
use vstd::arithmetic::power2::{pow2, lemma2_to64, lemma2_to64_rest, lemma_pow2_adds, lemma_pow2_pos, lemma_pow2_strictly_increases};
use crate::arith::{number, from_whole, abs, is_pattern, lemma_pattern_exists, lemma_ratio_pattern, lemma_infinity, lemma_sum_down};
use crate::dsp::TWENTY;
use crate::envelope::{channel_sum, sum_frame};
use crate::functions::{Function, is_total, gives, evaluate};
use crate::plan::{least, most, minus, min_index, max_index};
use crate::fft::{lemma_power, lemma_word};
use crate::rounding::{bit_len, nearest, nearest_ratio, lemma_bit_len_monotone, lemma_bit_len_unique, lemma_ratio_error, lemma_nearest_bounds, lemma_nearest_monotone, lemma_nearest_scaled, lemma_ratio_between, lemma_ratio_monotone};
use crate::scalar::{fadd, fsub, fmul, fdiv, fmax, fabs, truncated, add_to, subtract, multiply, divide_by, larger, absolute, truncate, negated, lemma_negated, lemma_shrinks, lemma_zero_one};
use crate::single::{HALF, ONE, TWO, MILLIONTH};
use crate::spectra::{Bin, is_hann, is_transform};
use crate::zones::in_order;
use crate::structure::{HOP, WINDOW, are_slices, flux_of, slices_of, is_novelty_curve, is_onset_curve, novelty_curve, onset_strength};
use crate::single::{Bits, INFINITY, value, magnitude, negative, significand, unsigned, lemma_magnitude_order, lemma_pattern_order, lemma_zero, is_nan, is_finite, less, less_than, at_most, is_at_most, clamped, clamp, floor_product, floor_times, at_most_index};

verus! {

/// Seconds per window.
pub const WINDOW_SECS: Bits = 0x3dcc_cccd;
/// A file shorter than two zones is not split.
pub const SHORTEST_FILE: Bits = 0x40c0_0000;
/// Windows that are averaged.
pub const SMOOTH_WINDOWS: usize = 20;
/// Windows to either side that a peak must top.
pub const NEIGHBORHOOD: usize = 10;
/// Windows that splits keep between them and to the ends of the file.
pub const MIN_ZONE_WINDOWS: usize = 30;
/// There is at most one split for so many seconds.
pub const SECONDS_PER_SPLIT: Bits = 0x4120_0000;
/// Splits this close to the ends of the file are dropped.
pub const EDGE: Bits = 0x3dcc_cccd;
pub const BILLIONTH: Bits = 0x3089_705f;
/// The strictest multiple of the median, and how far sensitivity lowers it.
pub const STRICTEST: Bits = 0x40c0_0000;
pub const SENSITIVITY_SPAN: Bits = 0x4099_999a;
/// Reach of the search for an onset, in seconds, and its least strength.
pub const ONSET_REACH: Bits = 0x3fc0_0000;
pub const ONSET_LEAST: Bits = 0x3e4c_cccd;

// ---- Windows ----------------------------------------------------------------

/// Samples per window, and the number of windows.
#[derive(Clone, Copy, PartialEq, Eq, Debug, Structural)]
pub struct Windows {
    pub size: usize,
    pub count: usize,
}

pub open spec fn window_size(rate: u32) -> nat {
    most(floor_product(WINDOW_SECS, rate as nat), 64)
}

/// The length of a file in seconds.
pub open spec fn file_length(len: nat, rate: u32) -> Bits {
    fdiv(number(len), number(rate as nat))
}

/// The windows of a file; none where it is too short to be split.
pub open spec fn windows_of(len: nat, rate: u32) -> Option<(nat, nat)> {
    let count = len / window_size(rate);
    if len == 0 || rate == 0 || less(file_length(len, rate), SHORTEST_FILE) || count < 4 {
        None
    } else {
        Some((window_size(rate), count))
    }
}

/// The windows of a file; none where it is too short to be split.
pub fn windows(len: usize, rate: u32) -> (r: Option<Windows>)
    ensures
        match r {
            None => windows_of(len as nat, rate) is None,
            Some(w) => windows_of(len as nat, rate) == Some((w.size as nat, w.count as nat)),
        },
{
    if len == 0 || rate == 0 {
        return None;
    }
    let duration: Bits = divide_by(from_whole(len as u64), from_whole(rate as u64));
    if less_than(duration, SHORTEST_FILE) {
        return None;
    }
    let size: usize = max_index(floor_times(WINDOW_SECS, rate as u64), 64);
    let count: usize = len / size;
    if count < 4 {
        return None;
    }
    Some(Windows { size, count })
}

/// The sum of squares of the samples from `a` on, `n` of them.
pub open spec fn square_sum(s: Seq<Bits>, a: int, n: int) -> Bits
    decreases n,
{
    if n <= 0 {
        0
    } else {
        let v = s[a + n - 1];
        fadd(square_sum(s, a, n - 1), fmul(v, v))
    }
}

/// The largest magnitude of the samples from `a` on, `n` of them.
pub open spec fn top(s: Seq<Bits>, a: int, n: int) -> Bits
    decreases n,
{
    if n <= 0 {
        0
    } else {
        let before = top(s, a, n - 1);
        let v = fabs(s[a + n - 1]);
        if less(before, v) {
            v
        } else {
            before
        }
    }
}

/// The mean square and the peak of a window.
pub fn window_energy(mono: &Vec<Bits>, start: usize, size: usize) -> (r: (Bits, Bits))
    requires
        start + size <= mono@.len(),
    ensures
        r.0 == fdiv(square_sum(mono@, start as int, size as int), number(size as nat)),
        r.1 == fmax(top(mono@, start as int, size as int), MILLIONTH),
{
    let total: usize = mono.len();
    let mut sum: Bits = 0;
    let mut peak: Bits = 0;
    let mut n: usize = 0;
    while n < size
        invariant
            start + size <= mono@.len(),
            mono@.len() <= usize::MAX,
            n <= size,
            sum == square_sum(mono@, start as int, n as int),
            peak == top(mono@, start as int, n as int),
        decreases size - n,
    {
        let v: Bits = mono[start + n];
        sum = add_to(sum, multiply(v, v));
        let a: Bits = absolute(v);
        if less_than(peak, a) {
            peak = a;
        }
        n = n + 1;
    }
    (divide_by(sum, from_whole(size as u64)), larger(peak, MILLIONTH))
}

// ---- Averages and percentiles -----------------------------------------------

/// The odd width of an average over about `n` values, halved.
pub open spec fn half_width(n: nat) -> nat {
    n / 2
}

/// The mean of the values around `i`.
pub open spec fn local_mean(s: Seq<Bits>, half: nat, i: nat) -> Bits {
    let lo = minus(i, half);
    let hi = least(i + half + 1, s.len());
    fdiv(channel_sum(s, lo as int, hi - lo), number((hi - lo) as nat))
}

/// A centred moving average over about `n` values.
pub fn moving_average(input: &Vec<Bits>, n: usize) -> (out: Vec<Bits>)
    ensures
        out@ == Seq::new(input@.len(), |i: int| local_mean(input@, half_width(n as nat), i as nat)),
{
    let half: usize = n / 2;
    let mut out: Vec<Bits> = Vec::new();
    let mut i: usize = 0;
    while i < input.len()
        invariant
            half == half_width(n as nat),
            i <= input@.len(),
            out@ =~= Seq::new(
                input@.len(),
                |k: int| local_mean(input@, half_width(n as nat), k as nat),
            ).take(i as int),
        decreases input@.len() - i,
    {
        let lo: usize = i.saturating_sub(half);
        let hi: usize = if half >= input.len() - i {
            input.len()
        } else {
            i + half + 1
        };
        let m: Bits = divide_by(sum_frame(input, lo, hi - lo), from_whole((hi - lo) as u64));
        assert(hi as nat == least((i + half + 1) as nat, input@.len()));
        out.push(m);
        i = i + 1;
    }
    out
}

/// No value lies before a smaller one.
pub open spec fn ascending(s: Seq<Bits>) -> bool {
    forall|i: int, j: int| 0 <= i < j < s.len() ==> !less(#[trigger] s[j], #[trigger] s[i])
}

/// A sequence of numbers: none of its values is without a number.
pub open spec fn all_numbers(s: Seq<Bits>) -> bool {
    forall|i: int| 0 <= i < s.len() ==> !is_nan(#[trigger] s[i])
}

/// The values of a sequence, in ascending order if all are numbers.
pub fn sorted(input: &Vec<Bits>) -> (out: Vec<Bits>)
    ensures
        all_numbers(input@) ==> ascending(out@),
        out@.to_multiset() == input@.to_multiset(),
        out@.len() == input@.len(),
{
    let mut out: Vec<Bits> = Vec::new();
    let mut i: usize = 0;
    proof {
        assert(input@.take(0) =~= Seq::empty());
        assert(out@ =~= Seq::empty());
    }
    while i < input.len()
        invariant
            i <= input@.len(),
            out@.len() == i,
            all_numbers(input@) ==> ascending(out@) && all_numbers(out@),
            out@.to_multiset() == input@.take(i as int).to_multiset(),
        decreases input@.len() - i,
    {
        let v: Bits = input[i];
        let mut k: usize = out.len();
        while k > 0 && less_than(v, out[k - 1])
            invariant
                k <= out@.len(),
                forall|m: int| k <= m < out@.len() ==> less(v, #[trigger] out@[m]),
            decreases k,
        {
            k = k - 1;
        }
        let ghost before = out@;
        out.insert(k, v);
        proof {
            assert(!less(v, before[k - 1]) || k == 0);
            if all_numbers(input@) {
                lemma_inserted(before, k as int, v);
            }
            assert(out@ =~= before.insert(k as int, v));
            assert(input@.take(i + 1) =~= input@.take(i as int).push(v));
            input@.take(i as int).to_multiset_ensures();
            lemma_multiset_inserted(before, k as int, v);
        }
        i = i + 1;
    }
    assert(input@.take(input@.len() as int) =~= input@);
    out
}

proof fn lemma_inserted(s: Seq<Bits>, k: int, v: Bits)
    requires
        ascending(s),
        0 <= k <= s.len(),
        !is_nan(v),
        all_numbers(s),
        forall|m: int| k <= m < s.len() ==> less(v, #[trigger] s[m]),
        k == 0 || !less(v, s[k - 1]),
    ensures
        ascending(s.insert(k, v)),
        all_numbers(s.insert(k, v)),
{
    let t = s.insert(k, v);
    assert forall|i: int, j: int| 0 <= i < j < t.len() implies !less(#[trigger] t[j], #[trigger] t[i]) by {
        if j < k {
            assert(t[i] == s[i] && t[j] == s[j]);
        } else if i > k {
            assert(t[i] == s[i - 1] && t[j] == s[j - 1]);
        } else if j == k {
            assert(t[i] == s[i]);
            if i < k - 1 {
                assert(!less(s[k - 1], s[i]));
            }
        } else if i == k {
            assert(t[j] == s[j - 1]);
        } else {
            assert(t[i] == s[i] && t[j] == s[j - 1]);
            assert(!less(s[j - 1], s[i]) || i == j - 1);
        }
    }
    assert forall|m: int| 0 <= m < t.len() implies !is_nan(#[trigger] t[m]) by {
        if m < k {
            assert(t[m] == s[m]);
        } else if m > k {
            assert(t[m] == s[m - 1]);
        }
    }
}

proof fn lemma_multiset_inserted(s: Seq<Bits>, k: int, v: Bits)
    requires
        0 <= k <= s.len(),
    ensures
        s.insert(k, v).to_multiset() == s.to_multiset().insert(v),
{
    let t = s.insert(k, v);
    t.to_multiset_ensures();
    assert(t.remove(k) =~= s);
    assert(t[k] == v);
    assert(t.contains(v));
    assert(t.to_multiset().count(v) > 0);
    assert(t.to_multiset() =~= t.to_multiset().remove(v).insert(v));
}

/// A value of the sequence that has its place in ascending order.
pub open spec fn is_ranked(s: Seq<Bits>, k: nat, v: Bits) -> bool {
    exists|t: Seq<Bits>|
        #[trigger] ascending(t) && t.to_multiset() == s.to_multiset() && k < t.len() && t[k as int] == v
}

/// The spread of a sequence: the distance of its ninth to its first tenth.
pub open spec fn is_spread(s: Seq<Bits>, r: Bits) -> bool {
    if s.len() < 2 {
        r == 0
    } else {
        exists|a: Bits, b: Bits|
            #[trigger] is_ranked(s, s.len() / 10, a) && #[trigger] is_ranked(
                s,
                s.len() * 9 / 10,
                b,
            ) && r == fabs(fsub(b, a))
    }
}

/// The spread of a sequence of numbers. Values without a number have no place
/// in any order; where there are some, nothing is said of the result.
pub fn robust_range(input: &Vec<Bits>) -> (r: Bits)
    ensures
        all_numbers(input@) ==> is_spread(input@, r),
{
    let n: usize = input.len();
    if n < 2 {
        return 0;
    }
    let order: Vec<Bits> = sorted(input);
    let low: usize = n / 10;
    let high: usize = (n as u128 * 9 / 10) as usize;
    let a: Bits = order[low];
    let b: Bits = order[high];
    proof {
        if all_numbers(input@) {
            assert(ascending(order@));
            assert(is_ranked(input@, input@.len() / 10, a));
            assert(is_ranked(input@, input@.len() * 9 / 10, b));
        }
    }
    absolute(subtract(b, a))
}

/// The values that are finite numbers.
pub open spec fn finite_of(s: Seq<Bits>) -> Seq<Bits> {
    s.filter(|v: Bits| is_finite(v))
}

/// The values that are greater than zero.
pub open spec fn positive_of(s: Seq<Bits>) -> Seq<Bits> {
    s.filter(|v: Bits| less(0, v))
}

fn keep_finite(input: &Vec<Bits>) -> (out: Vec<Bits>)
    ensures
        out@ == finite_of(input@),
        all_numbers(out@),
{
    let mut out: Vec<Bits> = Vec::new();
    let mut i: usize = 0;
    proof {
        reveal(Seq::filter);
        assert(input@.take(0) =~= Seq::empty());
    }
    while i < input.len()
        invariant
            i <= input@.len(),
            out@ == finite_of(input@.take(i as int)),
            forall|k: int| 0 <= k < out@.len() ==> !is_nan(#[trigger] out@[k]),
        decreases input@.len() - i,
    {
        let v: Bits = input[i];
        proof {
            reveal(Seq::filter);
            assert(input@.take(i + 1).drop_last() =~= input@.take(i as int));
        }
        if v % 0x8000_0000 < INFINITY {
            out.push(v);
        }
        i = i + 1;
    }
    assert(input@.take(input@.len() as int) =~= input@);
    out
}

/// The values that are greater than zero.
pub fn keep_positive(input: &Vec<Bits>) -> (out: Vec<Bits>)
    ensures
        out@ == positive_of(input@),
        all_numbers(out@),
{
    let mut out: Vec<Bits> = Vec::new();
    let mut i: usize = 0;
    proof {
        reveal(Seq::filter);
        assert(input@.take(0) =~= Seq::empty());
    }
    while i < input.len()
        invariant
            i <= input@.len(),
            out@ == positive_of(input@.take(i as int)),
            forall|k: int| 0 <= k < out@.len() ==> !is_nan(#[trigger] out@[k]),
        decreases input@.len() - i,
    {
        let v: Bits = input[i];
        proof {
            reveal(Seq::filter);
            assert(input@.take(i + 1).drop_last() =~= input@.take(i as int));
        }
        if less_than(0, v) {
            out.push(v);
        }
        i = i + 1;
    }
    assert(input@.take(input@.len() as int) =~= input@);
    out
}

/// A curve scaled so that its highest twentieth lies at one and above, cut at
/// zero and two.
pub open spec fn scaled_by(s: Seq<Bits>, reference: Bits) -> Seq<Bits> {
    s.map_values(|v: Bits| clamped(fdiv(v, fmax(reference, BILLIONTH)), 0, TWO))
}

/// The value below which nineteen twentieths lie.
pub open spec fn is_p95(s: Seq<Bits>, v: Bits) -> bool {
    is_ranked(s, s.len() * 95 / 100, v)
}

/// `out` is a curve scaled by its highest twentieth, if it holds a finite
/// number.
pub open spec fn is_scaled_finite(s: Seq<Bits>, out: Seq<Bits>) -> bool {
    &&& finite_of(s).len() == 0 ==> out == s
    &&& finite_of(s).len() > 0 ==> exists|p: Bits|
        #[trigger] is_p95(finite_of(s), p) && out == scaled_by(s, p)
}

/// `out` is a curve scaled by the highest twentieth of its positive values, if
/// it has any.
pub open spec fn is_scaled_positive(s: Seq<Bits>, out: Seq<Bits>) -> bool {
    &&& positive_of(s).len() == 0 ==> out == s
    &&& positive_of(s).len() > 0 ==> exists|p: Bits|
        #[trigger] is_p95(positive_of(s), p) && out == scaled_by(s, p)
}

/// The value below which nineteen twentieths lie.
pub fn p95(input: &Vec<Bits>) -> (v: Bits)
    requires
        input@.len() > 0,
        all_numbers(input@),
    ensures
        is_p95(input@, v),
{
    let n: usize = input.len();
    let order: Vec<Bits> = sorted(input);
    let k: usize = (n as u128 * 95 / 100) as usize;
    let v: Bits = order[k];
    proof {
        assert(ascending(order@));
    }
    v
}

/// Scales a curve by its highest twentieth, if it holds a finite number.
pub fn normalize_p95(buf: &mut Vec<Bits>)
    ensures
        is_scaled_finite(old(buf)@, final(buf)@),
{
    let ghost before = buf@;
    let kept: Vec<Bits> = keep_finite(buf);
    if kept.len() == 0 {
        return;
    }
    let p: Bits = p95(&kept);
    scale_curve(buf, p);
    assert(is_p95(finite_of(before), p));
}

/// Scales a curve by the highest twentieth of its positive values, if it has
/// any.
pub fn normalize_positive_p95(buf: &mut Vec<Bits>)
    ensures
        is_scaled_positive(old(buf)@, final(buf)@),
{
    let ghost before = buf@;
    let kept: Vec<Bits> = keep_positive(buf);
    if kept.len() == 0 {
        return;
    }
    let p: Bits = p95(&kept);
    scale_curve(buf, p);
    assert(is_p95(positive_of(before), p));
}

fn scale_curve(buf: &mut Vec<Bits>, reference: Bits)
    ensures
        final(buf)@ == scaled_by(old(buf)@, reference),
{
    let ghost before = buf@;
    let by: Bits = larger(reference, BILLIONTH);
    let n: usize = buf.len();
    let mut i: usize = 0;
    proof {
        crate::single::lemma_magnitude_order(0, TWO);
    }
    while i < n
        invariant
            at_most(0, TWO),
            n == buf@.len(),
            n == before.len(),
            by == fmax(reference, BILLIONTH),
            i <= n,
            forall|k: int| 0 <= k < i ==> #[trigger] buf@[k] == scaled_by(before, reference)[k],
            forall|k: int| i <= k < n ==> #[trigger] buf@[k] == before[k],
        decreases n - i,
    {
        let v: Bits = clamp(divide_by(buf[i], by), 0, TWO);
        buf.set(i, v);
        i = i + 1;
    }
    assert(buf@ =~= scaled_by(before, reference));
}

// ---- The curve --------------------------------------------------------------

/// How much loudness and crest change from one window to the next, squared.
pub open spec fn change_at(rms: Seq<Bits>, crest: Seq<Bits>, by_rms: Bits, by_crest: Bits, i: int) -> Bits {
    if i <= 0 {
        0
    } else {
        let dr = fdiv(fsub(rms[i], rms[i - 1]), by_rms);
        let dc = fdiv(fsub(crest[i], crest[i - 1]), by_crest);
        fadd(fmul(dr, dr), fmul(dc, dc))
    }
}

/// How much loudness and crest change from one window to the next, squared;
/// nothing at the first.
pub fn changes(rms: &Vec<Bits>, crest: &Vec<Bits>, by_rms: Bits, by_crest: Bits) -> (out: Vec<Bits>)
    requires
        rms@.len() == crest@.len(),
    ensures
        out@ == Seq::new(rms@.len(), |i: int| change_at(rms@, crest@, by_rms, by_crest, i)),
{
    let mut out: Vec<Bits> = Vec::new();
    let mut i: usize = 0;
    while i < rms.len()
        invariant
            rms@.len() == crest@.len(),
            i <= rms@.len(),
            out@ =~= Seq::new(
                rms@.len(),
                |k: int| change_at(rms@, crest@, by_rms, by_crest, k),
            ).take(i as int),
        decreases rms@.len() - i,
    {
        if i == 0 {
            out.push(0);
        } else {
            let dr: Bits = divide_by(subtract(rms[i], rms[i - 1]), by_rms);
            let dc: Bits = divide_by(subtract(crest[i], crest[i - 1]), by_crest);
            out.push(add_to(multiply(dr, dr), multiply(dc, dc)));
        }
        i = i + 1;
    }
    out
}

/// The place on a curve with another step that window `i` falls on.
pub open spec fn place_on(i: nat, hop: Bits) -> nat {
    at_most_index(truncated(fdiv(fmul(number(i), WINDOW_SECS), hop)))
}

/// A curve with another step, looked up at every window.
pub open spec fn aligned(curve: Seq<Bits>, hop: Bits, n: nat) -> Seq<Bits> {
    Seq::new(
        n,
        |i: int|
            if less(0, hop) && place_on(i as nat, hop) < curve.len() {
                curve[place_on(i as nat, hop) as int]
            } else {
                0
            },
    )
}

/// The change at every window: the stronger one of loudness and harmony.
pub open spec fn strongest(a: Seq<Bits>, b: Seq<Bits>) -> Seq<Bits> {
    Seq::new(a.len(), |i: int| fmax(a[i], b[i]))
}

/// The change at every window: the stronger one of loudness and harmony. The
/// curve of harmony has a step of its own.
pub fn combine(dynamics: &Vec<Bits>, harmony: &Vec<Bits>, hop: Bits) -> (out: Vec<Bits>)
    ensures
        out@ == strongest(dynamics@, aligned(harmony@, hop, dynamics@.len())),
{
    let mut out: Vec<Bits> = Vec::new();
    let mut i: usize = 0;
    while i < dynamics.len()
        invariant
            i <= dynamics@.len(),
            out@ =~= strongest(dynamics@, aligned(harmony@, hop, dynamics@.len())).take(i as int),
        decreases dynamics@.len() - i,
    {
        let mut h: Bits = 0;
        if less_than(0, hop) {
            let at: u64 = truncate(divide_by(multiply(from_whole(i as u64), WINDOW_SECS), hop));
            if at < harmony.len() as u64 {
                h = harmony[at as usize];
            }
        }
        out.push(larger(dynamics[i], h));
        i = i + 1;
    }
    out
}

/// The median of the positive values of a curve.
pub open spec fn is_median(s: Seq<Bits>, v: Bits) -> bool {
    is_ranked(positive_of(s), positive_of(s).len() / 2, v)
}

/// The strength that a peak needs: a multiple of the median. `sensitivity` has
/// already been bent into its curve.
pub open spec fn threshold_of(median: Bits, sensitivity: Bits) -> Bits {
    fmul(fmax(median, MILLIONTH), fsub(STRICTEST, fmul(sensitivity, SENSITIVITY_SPAN)))
}

/// The strength that a peak needs; none where the curve is never positive.
pub fn threshold(combined: &Vec<Bits>, sensitivity: Bits) -> (r: Option<Bits>)
    ensures
        match r {
            None => positive_of(combined@).len() == 0,
            Some(t) => positive_of(combined@).len() > 0 && exists|m: Bits|
                #[trigger] is_median(combined@, m) && t == threshold_of(m, sensitivity),
        },
{
    let kept: Vec<Bits> = keep_positive(combined);
    if kept.len() == 0 {
        return None;
    }
    let n: usize = kept.len();
    let order: Vec<Bits> = sorted(&kept);
    let m: Bits = order[n / 2];
    proof {
        assert(ascending(order@));
        assert(is_median(combined@, m));
    }
    Some(
        multiply(
            larger(m, MILLIONTH),
            subtract(STRICTEST, multiply(sensitivity, SENSITIVITY_SPAN)),
        ),
    )
}

// ---- Peaks ------------------------------------------------------------------

/// Is window `i` a peak: strong enough, and topped by none in its
/// neighbourhood?
pub open spec fn is_peak(c: Seq<Bits>, threshold: Bits, i: int) -> bool {
    &&& NEIGHBORHOOD <= i < c.len() - NEIGHBORHOOD
    &&& !less(c[i], threshold)
    &&& forall|j: int|
        i - NEIGHBORHOOD <= j < i + NEIGHBORHOOD + 1 && 0 <= j < c.len() ==> at_most(
            #[trigger] c[j],
            c[i],
        )
}

/// Does peak `a` come before peak `b`: stronger, or as strong and earlier?
pub open spec fn comes_first(c: Seq<Bits>, a: int, b: int) -> bool {
    less(c[b], c[a]) || (!less(c[a], c[b]) && a < b)
}

/// The peaks of a curve, the strongest first.
pub open spec fn is_ranking(c: Seq<Bits>, threshold: Bits, list: Seq<usize>) -> bool {
    &&& forall|k: int|
        0 <= k < list.len() ==> (#[trigger] list[k]) < c.len() && is_peak(c, threshold, list[k] as int)
    &&& forall|i: int| #[trigger] is_peak(c, threshold, i) ==> exists|k: int|
        0 <= k < list.len() && list[k] == i
    &&& forall|k: int, m: int|
        0 <= k < m < list.len() ==> comes_first(c, (#[trigger] list[k]) as int, (#[trigger] list[m]) as int)
}

/// Windows between two windows.
pub open spec fn gap(a: usize, b: usize) -> int {
    if a < b {
        b - a
    } else {
        a - b
    }
}

/// Can a split stand at window `w`, beside those already there?
pub open spec fn has_room(taken: Seq<usize>, w: usize, n: nat) -> bool {
    &&& MIN_ZONE_WINDOWS <= w
    &&& w + MIN_ZONE_WINDOWS <= n
    &&& forall|k: int| 0 <= k < taken.len() ==> gap(#[trigger] taken[k], w) >= MIN_ZONE_WINDOWS
}

/// The windows taken from the first `k` of a list: each that has room, as long
/// as there are not too many.
pub open spec fn taken(list: Seq<usize>, n: nat, limit: nat, k: int) -> Seq<usize>
    decreases k,
{
    if k <= 0 {
        Seq::empty()
    } else {
        let before = taken(list, n, limit, k - 1);
        if before.len() < limit && has_room(before, list[k - 1], n) {
            before.push(list[k - 1])
        } else {
            before
        }
    }
}

/// The most splits that a file of that length gets.
pub open spec fn most_splits(duration: Bits) -> nat {
    most(at_most_index(truncated(fdiv(duration, SECONDS_PER_SPLIT))), 1)
}

fn check_peak(c: &Vec<Bits>, threshold: Bits, i: usize) -> (r: bool)
    requires
        NEIGHBORHOOD <= i,
        i + NEIGHBORHOOD < c@.len(),
    ensures
        r == is_peak(c@, threshold, i as int),
{
    let v: Bits = c[i];
    if less_than(v, threshold) {
        return false;
    }
    let n: usize = c.len();
    let hi: usize = i + NEIGHBORHOOD + 1;
    let mut j: usize = i - NEIGHBORHOOD;
    while j < hi
        invariant
            NEIGHBORHOOD <= i,
            i + NEIGHBORHOOD < c@.len(),
            hi == i + NEIGHBORHOOD + 1,
            v == c@[i as int],
            i - NEIGHBORHOOD <= j <= hi,
            forall|k: int| i - NEIGHBORHOOD <= k < j ==> at_most(#[trigger] c@[k], v),
        decreases hi - j,
    {
        if !is_at_most(c[j], v) {
            assert(!at_most(c@[j as int], c@[i as int]));
            return false;
        }
        j = j + 1;
    }
    true
}

/// The peaks of a curve, the strongest first.
pub fn ranked_peaks(c: &Vec<Bits>, threshold: Bits) -> (list: Vec<usize>)
    ensures
        is_ranking(c@, threshold, list@),
{
    let mut list: Vec<usize> = Vec::new();
    let n: usize = c.len();
    if n <= 2 * NEIGHBORHOOD {
        return list;
    }
    let mut i: usize = NEIGHBORHOOD;
    while i < n - NEIGHBORHOOD
        invariant
            n == c@.len(),
            n > 2 * NEIGHBORHOOD,
            NEIGHBORHOOD <= i <= n - NEIGHBORHOOD,
            forall|k: int|
                0 <= k < list@.len() ==> (#[trigger] list@[k]) < i && is_peak(
                    c@,
                    threshold,
                    list@[k] as int,
                ),
            forall|w: int|
                w < i && #[trigger] is_peak(c@, threshold, w) ==> exists|k: int|
                    0 <= k < list@.len() && list@[k] == w,
            forall|k: int, m: int|
                0 <= k < m < list@.len() ==> comes_first(
                    c@,
                    (#[trigger] list@[k]) as int,
                    (#[trigger] list@[m]) as int,
                ),
        decreases n - i,
    {
        let ghost before = list@;
        if check_peak(c, threshold, i) {
            let v: Bits = c[i];
            let mut k: usize = list.len();
            while k > 0 && less_than(c[list[k - 1]], v)
                invariant
                    n == c@.len(),
                    i < n,
                    v == c@[i as int],
                    list@ == before,
                    k <= list@.len(),
                    forall|m: int| 0 <= m < list@.len() ==> (#[trigger] list@[m]) < i,
                    forall|m: int| k <= m < list@.len() ==> less(c@[(#[trigger] list@[m]) as int], v),
                decreases k,
            {
                k = k - 1;
            }
            list.insert(k, i);
            proof {
                lemma_ranking_insert(c@, threshold, before, k as int, i);
                assert(list@ =~= before.insert(k as int, i));
                assert forall|w: int| w < i + 1 && #[trigger] is_peak(c@, threshold, w) implies exists|m: int|
                    0 <= m < list@.len() && list@[m] == w by {
                    if w == i {
                        assert(list@[k as int] == w);
                    } else {
                        let m = choose|m: int| 0 <= m < before.len() && before[m] == w;
                        if m < k {
                            assert(list@[m] == w);
                        } else {
                            assert(list@[m + 1] == w);
                        }
                    }
                }
                assert forall|m: int| 0 <= m < list@.len() implies (#[trigger] list@[m]) < i + 1 && is_peak(
                    c@,
                    threshold,
                    list@[m] as int,
                ) by {
                    if m < k {
                        assert(list@[m] == before[m]);
                    } else if m > k {
                        assert(list@[m] == before[m - 1]);
                    }
                }
            }
        }
        i = i + 1;
    }
    list
}

proof fn lemma_ranking_insert(c: Seq<Bits>, threshold: Bits, s: Seq<usize>, k: int, i: usize)
    requires
        0 <= k <= s.len(),
        forall|m: int| 0 <= m < s.len() ==> (#[trigger] s[m]) < i && is_peak(c, threshold, s[m] as int),
        is_peak(c, threshold, i as int),
        forall|a: int, b: int|
            0 <= a < b < s.len() ==> comes_first(c, (#[trigger] s[a]) as int, (#[trigger] s[b]) as int),
        forall|m: int| k <= m < s.len() ==> less(c[(#[trigger] s[m]) as int], c[i as int]),
        k == 0 || !less(c[s[k - 1] as int], c[i as int]),
    ensures
        forall|a: int, b: int|
            0 <= a < b < s.insert(k, i).len() ==> comes_first(
                c,
                (#[trigger] s.insert(k, i)[a]) as int,
                (#[trigger] s.insert(k, i)[b]) as int,
            ),
{
    let t = s.insert(k, i);
    assert forall|a: int, b: int| 0 <= a < b < t.len() implies comes_first(
        c,
        (#[trigger] t[a]) as int,
        (#[trigger] t[b]) as int,
    ) by {
        if b < k {
            assert(t[a] == s[a] && t[b] == s[b]);
        } else if a > k {
            assert(t[a] == s[a - 1] && t[b] == s[b - 1]);
        } else if b == k {
            assert(t[a] == s[a]);
            assert(is_peak(c, threshold, s[a] as int));
            if a < k - 1 {
                assert(comes_first(c, s[a] as int, s[k - 1] as int));
                assert(is_peak(c, threshold, s[k - 1] as int));
            }
            lemma_peak_number(c, threshold, s[a] as int);
            lemma_peak_number(c, threshold, s[k - 1] as int);
            lemma_peak_number(c, threshold, i as int);
        } else if a == k {
            assert(t[b] == s[b - 1]);
        } else {
            assert(t[a] == s[a] && t[b] == s[b - 1]);
        }
    }
}

proof fn lemma_peak_number(c: Seq<Bits>, threshold: Bits, i: int)
    requires
        is_peak(c, threshold, i),
    ensures
        !is_nan(c[i]),
{
    assert(at_most(c[i], c[i]));
}

fn test_room(list: &Vec<usize>, w: usize, n: usize) -> (r: bool)
    ensures
        r == has_room(list@, w, n as nat),
{
    if w < MIN_ZONE_WINDOWS || n < MIN_ZONE_WINDOWS || w > n - MIN_ZONE_WINDOWS {
        return false;
    }
    let mut k: usize = 0;
    while k < list.len()
        invariant
            k <= list@.len(),
            forall|m: int| 0 <= m < k ==> gap(#[trigger] list@[m], w) >= MIN_ZONE_WINDOWS,
        decreases list@.len() - k,
    {
        let a: usize = list[k];
        let d: usize = if a < w {
            w - a
        } else {
            a - w
        };
        if d < MIN_ZONE_WINDOWS {
            assert(gap(list@[k as int], w) < MIN_ZONE_WINDOWS);
            return false;
        }
        k = k + 1;
    }
    true
}

/// Takes the windows of a list in order, each that has room, as long as there
/// are not too many.
pub fn accept(list: &Vec<usize>, n: usize, duration: Bits) -> (out: Vec<usize>)
    ensures
        out@ == taken(list@, n as nat, most_splits(duration), list@.len() as int),
{
    let cap: u64 = truncate(divide_by(duration, SECONDS_PER_SPLIT));
    let whole: usize = if cap > usize::MAX as u64 {
        usize::MAX
    } else {
        cap as usize
    };
    let limit: usize = max_index(whole, 1);
    let mut out: Vec<usize> = Vec::new();
    let mut k: usize = 0;
    while k < list.len()
        invariant
            limit == most_splits(duration),
            k <= list@.len(),
            out@ == taken(list@, n as nat, limit as nat, k as int),
        decreases list@.len() - k,
    {
        if out.len() < limit && test_room(&out, list[k], n) {
            out.push(list[k]);
        }
        k = k + 1;
    }
    out
}

/// Window numbers in ascending order.
pub open spec fn in_time(s: Seq<usize>) -> bool {
    forall|i: int, j: int| 0 <= i < j < s.len() ==> #[trigger] s[i] <= #[trigger] s[j]
}

/// Window numbers in ascending order.
pub fn by_time(list: &Vec<usize>) -> (out: Vec<usize>)
    ensures
        in_time(out@),
        out@.to_multiset() == list@.to_multiset(),
{
    let mut out: Vec<usize> = Vec::new();
    let mut i: usize = 0;
    proof {
        assert(list@.take(0) =~= Seq::empty());
        assert(out@ =~= Seq::empty());
    }
    while i < list.len()
        invariant
            i <= list@.len(),
            in_time(out@),
            out@.to_multiset() == list@.take(i as int).to_multiset(),
        decreases list@.len() - i,
    {
        let v: usize = list[i];
        let mut k: usize = out.len();
        while k > 0 && v < out[k - 1]
            invariant
                k <= out@.len(),
                forall|m: int| k <= m < out@.len() ==> v < #[trigger] out@[m],
            decreases k,
        {
            k = k - 1;
        }
        let ghost before = out@;
        out.insert(k, v);
        proof {
            assert(out@ =~= before.insert(k as int, v));
            lemma_time_inserted(before, k as int, v);
            assert(list@.take(i + 1) =~= list@.take(i as int).push(v));
            list@.take(i as int).to_multiset_ensures();
        }
        i = i + 1;
    }
    assert(list@.take(list@.len() as int) =~= list@);
    out
}

proof fn lemma_time_inserted(s: Seq<usize>, k: int, v: usize)
    requires
        in_time(s),
        0 <= k <= s.len(),
        forall|m: int| k <= m < s.len() ==> v < #[trigger] s[m],
        k == 0 || s[k - 1] <= v,
    ensures
        in_time(s.insert(k, v)),
        s.insert(k, v).to_multiset() == s.to_multiset().insert(v),
{
    let t = s.insert(k, v);
    t.to_multiset_ensures();
    assert(t.remove(k) =~= s);
    assert(t[k] == v);
    assert(t.contains(v));
    assert(t.to_multiset() =~= t.to_multiset().remove(v).insert(v));
    assert forall|a: int, b: int| 0 <= a < b < t.len() implies #[trigger] t[a] <= #[trigger] t[b] by {
        if b < k {
            assert(t[a] == s[a] && t[b] == s[b]);
        } else if a > k {
            assert(t[a] == s[a - 1] && t[b] == s[b - 1]);
        } else if b == k {
            assert(t[a] == s[a]);
            if a < k - 1 {
                assert(s[a] <= s[k - 1]);
            }
        } else if a == k {
            assert(t[b] == s[b - 1]);
        } else {
            assert(t[a] == s[a] && t[b] == s[b - 1]);
        }
    }
}

/// The windows at which a file is split, in order: the strongest peaks of its
/// curve that have room.
pub open spec fn is_choice(c: Seq<Bits>, threshold: Bits, duration: Bits, out: Seq<usize>) -> bool {
    exists|list: Seq<usize>|
        #[trigger] is_ranking(c, threshold, list) && in_time(out) && out.to_multiset() == taken(
            list,
            c.len(),
            most_splits(duration),
            list.len() as int,
        ).to_multiset()
}

/// Picks the windows at which a file is split.
pub fn pick_windows(c: &Vec<Bits>, threshold: Bits, duration: Bits) -> (out: Vec<usize>)
    ensures
        is_choice(c@, threshold, duration, out@),
{
    let list: Vec<usize> = ranked_peaks(c, threshold);
    let some: Vec<usize> = accept(&list, c.len(), duration);
    let out: Vec<usize> = by_time(&some);
    assert(is_ranking(c@, threshold, list@));
    out
}

// ---- Times ------------------------------------------------------------------

/// The middle of a window, in seconds.
pub open spec fn window_time(w: usize) -> Bits {
    fmul(fadd(number(w as nat), HALF), WINDOW_SECS)
}

/// Does a time keep away from the ends of the file?
pub open spec fn off_edges(t: Bits, duration: Bits) -> bool {
    less(EDGE, t) && less(t, fsub(duration, EDGE))
}

/// The times of windows, without those at the ends of the file.
pub open spec fn window_times(list: Seq<usize>, duration: Bits) -> Seq<Bits>
    decreases list.len(),
{
    if list.len() == 0 {
        Seq::empty()
    } else {
        let before = window_times(list.drop_last(), duration);
        let t = window_time(list.last());
        if off_edges(t, duration) {
            before.push(t)
        } else {
            before
        }
    }
}

/// The times of windows, without those at the ends of the file.
pub fn split_times(list: &Vec<usize>, duration: Bits) -> (out: Vec<Bits>)
    ensures
        out@ == window_times(list@, duration),
{
    let last: Bits = subtract(duration, EDGE);
    let mut out: Vec<Bits> = Vec::new();
    let mut i: usize = 0;
    assert(list@.take(0) =~= Seq::empty());
    while i < list.len()
        invariant
            last == fsub(duration, EDGE),
            i <= list@.len(),
            out@ == window_times(list@.take(i as int), duration),
        decreases list@.len() - i,
    {
        let t: Bits = multiply(add_to(from_whole(list[i] as u64), HALF), WINDOW_SECS);
        proof {
            assert(list@.take(i + 1).drop_last() =~= list@.take(i as int));
        }
        if less_than(EDGE, t) && less_than(t, last) {
            out.push(t);
        }
        i = i + 1;
    }
    assert(list@.take(list@.len() as int) =~= list@);
    out
}

/// The strongest onset from `lo` up to `hi`, the last of those that are equal.
pub open spec fn strongest_onset(onset: Seq<Bits>, lo: int, hi: int) -> int
    decreases hi - lo,
{
    if hi <= lo + 1 {
        lo
    } else {
        let before = strongest_onset(onset, lo, hi - 1);
        if less(onset[hi - 1], onset[before]) {
            before
        } else {
            hi - 1
        }
    }
}

/// A time moved to the strongest onset within reach; left where none is strong
/// enough.
pub open spec fn on_onset(t: Bits, onset: Seq<Bits>, hop: Bits) -> Bits {
    let center = at_most_index(truncated(fdiv(t, hop)));
    let reach = at_most_index(truncated(fdiv(ONSET_REACH, hop)));
    let lo = minus(center, reach);
    let hi = least(center + reach + 1, onset.len());
    if onset.len() == 0 || at_most(hop, 0) || lo >= hi {
        t
    } else {
        let best = strongest_onset(onset, lo as int, hi as int);
        if less(onset[best], ONSET_LEAST) {
            t
        } else {
            fmul(number(best as nat), hop)
        }
    }
}

fn index_of(b: Bits) -> (r: usize)
    ensures
        r == at_most_index(truncated(b)),
{
    let n: u64 = truncate(b);
    if n > usize::MAX as u64 {
        usize::MAX
    } else {
        n as usize
    }
}

/// Moves a time to the strongest onset within a second and a half.
pub fn snap_to_onset(t: Bits, onset: &Vec<Bits>, hop: Bits) -> (r: Bits)
    ensures
        r == on_onset(t, onset@, hop),
{
    if onset.len() == 0 || is_at_most(hop, 0) {
        return t;
    }
    let center: usize = index_of(divide_by(t, hop));
    let reach: usize = index_of(divide_by(ONSET_REACH, hop));
    let lo: usize = center.saturating_sub(reach);
    let n: usize = onset.len();
    let hi: usize = if center >= n || reach >= n - center {
        n
    } else {
        min_index(center + reach + 1, n)
    };
    assert(hi as nat == least((center + reach + 1) as nat, n as nat));
    if lo >= hi {
        return t;
    }
    let mut best: usize = lo;
    let mut k: usize = lo + 1;
    while k < hi
        invariant
            lo < k <= hi <= onset@.len(),
            lo <= best < k,
            best == strongest_onset(onset@, lo as int, k as int),
        decreases hi - k,
    {
        if !less_than(onset[k], onset[best]) {
            best = k;
        }
        k = k + 1;
    }
    if less_than(onset[best], ONSET_LEAST) {
        t
    } else {
        multiply(from_whole(best as u64), hop)
    }
}

/// Moves every time to an onset.
pub fn snap_all(times: &Vec<Bits>, onset: &Vec<Bits>, hop: Bits) -> (out: Vec<Bits>)
    ensures
        out@ == times@.map_values(|t: Bits| on_onset(t, onset@, hop)),
{
    let mut out: Vec<Bits> = Vec::new();
    let mut i: usize = 0;
    while i < times.len()
        invariant
            i <= times@.len(),
            out@ =~= times@.map_values(|t: Bits| on_onset(t, onset@, hop)).take(i as int),
        decreases times@.len() - i,
    {
        out.push(snap_to_onset(times[i], onset, hop));
        i = i + 1;
    }
    out
}

// ---- All of it --------------------------------------------------------------

/// What counts as no change, in decibels.
pub const THOUSANDTH: Bits = 0x3a83_126f;

/// `p` is loudness and crest of a window, in decibels.
pub open spec fn is_dynamics_at<M: Fn(Function, Bits) -> Bits>(
    m: &M,
    mono: Seq<Bits>,
    start: int,
    size: nat,
    p: (Bits, Bits),
) -> bool {
    exists|root: Bits, loud: Bits, crest: Bits|
        #![trigger gives(m, Function::SquareRoot, mean_square(mono, start, size), root), gives(m, Function::Log10, fmax(root, MILLIONTH), loud), gives(m, Function::Log10, fdiv(peak_at(mono, start, size), fmax(root, MILLIONTH)), crest)]
        {
            &&& gives(m, Function::SquareRoot, mean_square(mono, start, size), root)
            &&& gives(m, Function::Log10, fmax(root, MILLIONTH), loud)
            &&& gives(
                m,
                Function::Log10,
                fdiv(peak_at(mono, start, size), fmax(root, MILLIONTH)),
                crest,
            )
            &&& p == (fmul(TWENTY, loud), fmul(TWENTY, crest))
        }
}

/// The mean square of a window.
pub open spec fn mean_square(mono: Seq<Bits>, start: int, size: nat) -> Bits {
    fdiv(square_sum(mono, start, size as int), number(size))
}

/// The peak of a window, at least a millionth.
pub open spec fn peak_at(mono: Seq<Bits>, start: int, size: nat) -> Bits {
    fmax(top(mono, start, size as int), MILLIONTH)
}

fn dynamics_at<M: Fn(Function, Bits) -> Bits>(m: &M, mono: &Vec<Bits>, start: usize, size: usize) -> (p: (
    Bits,
    Bits,
))
    requires
        is_total(m),
        start + size <= mono@.len(),
    ensures
        is_dynamics_at(m, mono@, start as int, size as nat, p),
{
    let (square, peak): (Bits, Bits) = window_energy(mono, start, size);
    assert(square == mean_square(mono@, start as int, size as nat));
    assert(peak == peak_at(mono@, start as int, size as nat));
    let root: Bits = evaluate(m, Function::SquareRoot, square);
    let r: Bits = larger(root, MILLIONTH);
    let loud: Bits = evaluate(m, Function::Log10, r);
    let crest: Bits = evaluate(m, Function::Log10, divide_by(peak, r));
    (multiply(TWENTY, loud), multiply(TWENTY, crest))
}

/// `rms` and `crest` are loudness and crest of all windows, in decibels.
pub open spec fn are_dynamics<M: Fn(Function, Bits) -> Bits>(
    m: &M,
    mono: Seq<Bits>,
    size: nat,
    count: nat,
    rms: Seq<Bits>,
    crest: Seq<Bits>,
) -> bool {
    &&& rms.len() == count
    &&& crest.len() == count
    &&& forall|w: int|
        #![trigger rms[w]]
        0 <= w < count ==> is_dynamics_at(m, mono, w * size, size, (rms[w], crest[w]))
}

fn all_dynamics<M: Fn(Function, Bits) -> Bits>(m: &M, mono: &Vec<Bits>, w: &Windows) -> (r: (Vec<Bits>, Vec<Bits>))
    requires
        is_total(m),
        w.count * w.size <= mono@.len(),
    ensures
        are_dynamics(m, mono@, w.size as nat, w.count as nat, r.0@, r.1@),
{
    let total: usize = mono.len();
    let mut rms: Vec<Bits> = Vec::new();
    let mut crest: Vec<Bits> = Vec::new();
    let mut i: usize = 0;
    while i < w.count
        invariant
            is_total(m),
            w.count * w.size <= mono@.len() == total,
            i <= w.count,
            rms@.len() == i,
            crest@.len() == i,
            forall|k: int|
                #![trigger rms@[k]]
                0 <= k < i ==> is_dynamics_at(m, mono@, k * w.size, w.size as nat, (rms@[k], crest@[k])),
        decreases w.count - i,
    {
        assert(0 <= i * w.size && i * w.size + w.size <= w.count * w.size) by (nonlinear_arith)
            requires
                0 <= i,
                i + 1 <= w.count,
                0 <= w.size,
        ;
        let p: (Bits, Bits) = dynamics_at(m, mono, i * w.size, w.size);
        rms.push(p.0);
        crest.push(p.1);
        i = i + 1;
    }
    (rms, crest)
}

/// A curve averaged over two seconds.
pub open spec fn averaged(s: Seq<Bits>) -> Seq<Bits> {
    Seq::new(s.len(), |i: int| local_mean(s, half_width(SMOOTH_WINDOWS as nat), i as nat))
}

/// `by` is what a curve is measured by: its spread, but not too little.
pub open spec fn is_scale(s: Seq<Bits>, by: Bits) -> bool {
    all_numbers(s) ==> exists|r: Bits| #[trigger] is_spread(s, r) && by == fmax(r, THOUSANDTH)
}

fn scale_of(s: &Vec<Bits>) -> (by: Bits)
    ensures
        is_scale(s@, by),
{
    larger(robust_range(s), THOUSANDTH)
}

/// `delta` says how much the dynamics change at every window.
pub open spec fn are_changes<M: Fn(Function, Bits) -> Bits>(
    m: &M,
    rms: Seq<Bits>,
    crest: Seq<Bits>,
    by_rms: Bits,
    by_crest: Bits,
    delta: Seq<Bits>,
) -> bool {
    &&& delta.len() == rms.len()
    &&& delta.len() > 0 ==> delta[0] == 0
    &&& forall|i: int|
        1 <= i < delta.len() ==> gives(
            m,
            Function::SquareRoot,
            change_at(rms, crest, by_rms, by_crest, i),
            #[trigger] delta[i],
        )
}

fn all_changes<M: Fn(Function, Bits) -> Bits>(
    m: &M,
    rms: &Vec<Bits>,
    crest: &Vec<Bits>,
    by_rms: Bits,
    by_crest: Bits,
) -> (delta: Vec<Bits>)
    requires
        is_total(m),
        rms@.len() == crest@.len(),
    ensures
        are_changes(m, rms@, crest@, by_rms, by_crest, delta@),
{
    let squares: Vec<Bits> = changes(rms, crest, by_rms, by_crest);
    let n: usize = squares.len();
    let mut delta: Vec<Bits> = Vec::new();
    let mut i: usize = 0;
    while i < n
        invariant
            is_total(m),
            n == rms@.len(),
            squares@ == Seq::new(rms@.len(), |k: int| change_at(rms@, crest@, by_rms, by_crest, k)),
            i <= n,
            delta@.len() == i,
            i > 0 ==> delta@[0] == 0,
            forall|k: int|
                1 <= k < i ==> gives(
                    m,
                    Function::SquareRoot,
                    change_at(rms@, crest@, by_rms, by_crest, k),
                    #[trigger] delta@[k],
                ),
        decreases n - i,
    {
        let d: Bits = if i == 0 {
            0
        } else {
            evaluate(m, Function::SquareRoot, squares[i])
        };
        delta.push(d);
        i = i + 1;
    }
    delta
}

/// `dynamics` is the curve of the changes of loudness and crest.
pub open spec fn is_dynamics_curve<M: Fn(Function, Bits) -> Bits>(
    m: &M,
    mono: Seq<Bits>,
    size: nat,
    count: nat,
    dynamics: Seq<Bits>,
) -> bool {
    exists|rms: Seq<Bits>, crest: Seq<Bits>, by_rms: Bits, by_crest: Bits, delta: Seq<Bits>|
        #![trigger are_dynamics(m, mono, size, count, rms, crest), are_changes(m, averaged(rms), averaged(crest), by_rms, by_crest, delta)]
        {
            &&& are_dynamics(m, mono, size, count, rms, crest)
            &&& is_scale(averaged(rms), by_rms)
            &&& is_scale(averaged(crest), by_crest)
            &&& are_changes(m, averaged(rms), averaged(crest), by_rms, by_crest, delta)
            &&& is_scaled_finite(delta, dynamics)
        }
}

fn dynamics_curve<M: Fn(Function, Bits) -> Bits>(m: &M, mono: &Vec<Bits>, w: &Windows) -> (dynamics: Vec<Bits>)
    requires
        is_total(m),
        w.count * w.size <= mono@.len(),
    ensures
        is_dynamics_curve(m, mono@, w.size as nat, w.count as nat, dynamics@),
{
    let (rms, crest): (Vec<Bits>, Vec<Bits>) = all_dynamics(m, mono, w);
    let smooth_rms: Vec<Bits> = moving_average(&rms, SMOOTH_WINDOWS);
    let smooth_crest: Vec<Bits> = moving_average(&crest, SMOOTH_WINDOWS);
    assert(smooth_rms@ =~= averaged(rms@));
    assert(smooth_crest@ =~= averaged(crest@));
    let by_rms: Bits = scale_of(&smooth_rms);
    let by_crest: Bits = scale_of(&smooth_crest);
    let mut curve: Vec<Bits> = all_changes(m, &smooth_rms, &smooth_crest, by_rms, by_crest);
    let ghost delta = curve@;
    normalize_p95(&mut curve);
    proof {
        assert(are_dynamics(m, mono@, w.size as nat, w.count as nat, rms@, crest@));
        assert(are_changes(m, averaged(rms@), averaged(crest@), by_rms, by_crest, delta));
    }
    curve
}

/// `out` are the splits of a curve of changes, before they move to onsets.
pub open spec fn are_raw_splits(combined: Seq<Bits>, sensitivity: Bits, duration: Bits, out: Seq<Bits>) -> bool {
    if positive_of(combined).len() == 0 {
        out == Seq::<Bits>::empty()
    } else {
        exists|median: Bits, list: Seq<usize>|
            #![trigger is_choice(combined, threshold_of(median, sensitivity), duration, list)]
            {
                &&& is_median(combined, median)
                &&& is_choice(combined, threshold_of(median, sensitivity), duration, list)
                &&& out == window_times(list, duration)
            }
    }
}

/// Patterns without a sign have the order of their magnitudes.
proof fn lemma_patterns_in_order(p: Bits, m: nat, q: Bits, n: nat)
    requires
        is_pattern(p, false, m),
        is_pattern(q, false, n),
        m <= n,
    ensures
        p <= q <= INFINITY,
{
    lemma_magnitude_order(p, q);
}

/// The middles of windows have the order of the windows.
proof fn lemma_windows_in_order(a: usize, b: usize)
    requires
        a <= b,
    ensures
        window_time(a) <= window_time(b) <= INFINITY,
{
    let one = pow2(149);
    lemma_pow2_pos(149);
    lemma_infinity();
    let x = number(a as nat);
    let y = number(b as nat);
    lemma_nearest_monotone(a as nat, b as nat, 24);
    lemma_nearest_scaled(a as nat, 149, 24);
    lemma_nearest_scaled(b as nat, 149, 24);
    lemma_pattern_exists((a as nat) * one, false);
    lemma_pattern_exists((b as nat) * one, false);
    assert(nearest(a as nat, 24) * one <= nearest(b as nat, 24) * one) by (nonlinear_arith)
        requires
            nearest(a as nat, 24) <= nearest(b as nat, 24),
    ;
    lemma_patterns_in_order(x, nearest(a as nat, 24) * one, y, nearest(b as nat, 24) * one);
    let h = HALF;
    assert(unsigned(h) == h && significand(h) > 0);
    lemma_zero(h);
    let u = fadd(x, h);
    let v = fadd(y, h);
    assert(u <= v <= INFINITY) by {
        if y < INFINITY {
            lemma_pattern_order(x, y);
            lemma_pattern_exists(abs(value(x) + value(h)), false);
            lemma_pattern_exists(abs(value(y) + value(h)), false);
            lemma_nearest_monotone(abs(value(x) + value(h)), abs(value(y) + value(h)), 24);
            lemma_patterns_in_order(
                u,
                nearest(abs(value(x) + value(h)), 24),
                v,
                nearest(abs(value(y) + value(h)), 24),
            );
        } else if x < INFINITY {
            lemma_pattern_exists(abs(value(x) + value(h)), false);
        }
    }
    let s = WINDOW_SECS;
    assert(unsigned(s) == s && significand(s) > 0);
    lemma_zero(s);
    if v < INFINITY {
        lemma_magnitude_order(u, v);
        assert(magnitude(u) * magnitude(s) <= magnitude(v) * magnitude(s)) by (nonlinear_arith)
            requires
                magnitude(u) <= magnitude(v),
        ;
        lemma_ratio_pattern(magnitude(u) * magnitude(s), one, false);
        lemma_ratio_pattern(magnitude(v) * magnitude(s), one, false);
        lemma_ratio_monotone(magnitude(u) * magnitude(s), magnitude(v) * magnitude(s), one, 24);
        lemma_patterns_in_order(
            window_time(a),
            nearest_ratio(magnitude(u) * magnitude(s), one, 24),
            window_time(b),
            nearest_ratio(magnitude(v) * magnitude(s), one, 24),
        );
    } else if u < INFINITY {
        lemma_ratio_pattern(magnitude(u) * magnitude(s), one, false);
    }
}

/// Where each time of a list of windows comes from: one of the windows, in order.
proof fn lemma_times_of_windows(list: Seq<usize>, duration: Bits)
    requires
        in_time(list),
    ensures
        ascending(window_times(list, duration)),
        forall|i: int|
            0 <= i < window_times(list, duration).len() ==> off_edges(
                #[trigger] window_times(list, duration)[i],
                duration,
            ),
        forall|i: int|
            0 <= i < window_times(list, duration).len() ==> list.len() > 0 && #[trigger] window_times(
                list,
                duration,
            )[i] <= window_time(list.last()),
    decreases list.len(),
{
    if list.len() > 0 {
        let front = list.drop_last();
        let before = window_times(front, duration);
        let t = window_time(list.last());
        lemma_windows_in_order(list.last(), list.last());
        lemma_times_of_windows(front, duration);
        if front.len() > 0 {
            lemma_windows_in_order(front.last(), list.last());
        }
        assert forall|i: int| 0 <= i < before.len() implies !less(t, #[trigger] before[i]) by {
            lemma_pattern_order(before[i], t);
        }
    }
}

/// Before they move to onsets, splits come in the order of time, and keep away
/// from the ends of the file.
pub proof fn law_raw_splits_in_order(combined: Seq<Bits>, sensitivity: Bits, duration: Bits, out: Seq<Bits>)
    requires
        are_raw_splits(combined, sensitivity, duration, out),
    ensures
        ascending(out),
        forall|i: int| 0 <= i < out.len() ==> off_edges(#[trigger] out[i], duration),
{
    if positive_of(combined).len() > 0 {
        let (median, list) = choose|median: Bits, list: Seq<usize>|
            #![trigger is_choice(combined, threshold_of(median, sensitivity), duration, list)]
            {
                &&& is_median(combined, median)
                &&& is_choice(combined, threshold_of(median, sensitivity), duration, list)
                &&& out == window_times(list, duration)
            };
        lemma_times_of_windows(list, duration);
    }
}
fn raw_splits(combined: &Vec<Bits>, sensitivity: Bits, duration: Bits) -> (out: Vec<Bits>)
    ensures
        are_raw_splits(combined@, sensitivity, duration, out@),
{
    match threshold(combined, sensitivity) {
        None => {
            let none: Vec<Bits> = Vec::new();
            assert(none@ =~= Seq::<Bits>::empty());
            none
        },
        Some(t) => {
            let list: Vec<usize> = pick_windows(combined, t, duration);
            proof {
                let median = choose|v: Bits| #[trigger]
                    is_median(combined@, v) && t == threshold_of(v, sensitivity);
                assert(is_choice(combined@, threshold_of(median, sensitivity), duration, list@));
            }
            split_times(&list, duration)
        },
    }
}

/// A file that splits can be detected in: there are windows on both sides of a
/// peak.
pub open spec fn is_detectable(len: nat, rate: u32) -> bool {
    windows_of(len, rate) matches Some(w) ==> w.1 >= NEIGHBORHOOD
}

/// Whether splits can be detected in a file.
pub fn can_detect(len: usize, rate: u32) -> (r: bool)
    ensures
        r == is_detectable(len as nat, rate),
{
    match windows(len, rate) {
        None => true,
        Some(w) => w.count >= NEIGHBORHOOD,
    }
}

/// The curves and the splits of a file before they move to onsets belong
/// together. `bent` is the sensitivity, bent into its curve.
pub open spec fn leads_to<M: Fn(Function, Bits) -> Bits, T: Fn(Vec<Bits>) -> Vec<Bin>>(
    m: &M,
    t: &T,
    mono: Seq<Bits>,
    rate: u32,
    sensitivity: Bits,
    w: (nat, nat),
    dynamics: Seq<Bits>,
    harmony: (Seq<Bits>, Bits),
    bent: Bits,
    raw: Seq<Bits>,
    onset: (Seq<Bits>, Bits),
) -> bool {
    &&& is_dynamics_curve(m, mono, w.0, w.1, dynamics)
    &&& is_novelty_curve(m, t, mono, rate, harmony)
    &&& gives(m, Function::ThreeHalves, clamped(sensitivity, 0, ONE), bent)
    &&& are_raw_splits(
        strongest(dynamics, aligned(harmony.0, harmony.1, dynamics.len())),
        bent,
        file_length(mono.len(), rate),
        raw,
    )
    &&& is_onset_curve(m, t, mono, rate, onset)
}

/// `out` are the splits detected in a file, in order. The curves of loudness and
/// harmony are combined, the strongest peaks are picked, and each moves to an
/// onset.
pub open spec fn are_splits<M: Fn(Function, Bits) -> Bits, T: Fn(Vec<Bits>) -> Vec<Bin>>(
    m: &M,
    t: &T,
    mono: Seq<Bits>,
    rate: u32,
    sensitivity: Bits,
    out: Seq<Bits>,
) -> bool {
    match windows_of(mono.len(), rate) {
        None => out == Seq::<Bits>::empty(),
        Some(w) => exists|
            dynamics: Seq<Bits>,
            harmony: (Seq<Bits>, Bits),
            bent: Bits,
            raw: Seq<Bits>,
            onset: (Seq<Bits>, Bits),
        | #[trigger]
            leads_to(m, t, mono, rate, sensitivity, w, dynamics, harmony, bent, raw, onset)
                && out.to_multiset() == snapped_to(raw, onset).to_multiset() && in_order(out),
    }
}

/// Times moved to the onsets of a curve.
pub open spec fn snapped_to(times: Seq<Bits>, onset: (Seq<Bits>, Bits)) -> Seq<Bits> {
    times.map_values(|t: Bits| on_onset(t, onset.0, onset.1))
}

proof fn lemma_windows_inside(len: nat, rate: u32, size: nat, count: nat)
    requires
        windows_of(len, rate) == Some((size, count)),
    ensures
        count * size <= len,
{
    vstd::arithmetic::div_mod::lemma_fundamental_div_mod(len as int, size as int);
    vstd::arithmetic::div_mod::lemma_mod_bound(len as int, size as int);
    vstd::arithmetic::mul::lemma_mul_is_commutative(size as int, count as int);
}

/// A time between the ends of the file is positive and finite.
proof fn lemma_off_edges(t: Bits, duration: Bits)
    requires
        off_edges(t, duration),
    ensures
        t < INFINITY,
{
    lemma_infinity();
    lemma_zero(0);
    let edge: Bits = EDGE;
    assert(unsigned(edge) == edge);
    lemma_magnitude_order(t, INFINITY);
    lemma_magnitude_order(fsub(duration, EDGE), INFINITY);
    assert(unsigned(INFINITY) == INFINITY);
}

/// The time between two moments of the onset curve is finite and not too long.
proof fn lemma_hop(rate: u32)
    requires
        rate > 0,
    ensures
        ({
            let hop = fdiv(number(HOP as nat), number(rate as nat));
            &&& is_finite(hop)
            &&& !negative(hop)
            &&& magnitude(hop) <= pow2(159)
        }),
{
    lemma2_to64();
    lemma_word(HOP as nat);
    lemma_word(rate as nat);
    lemma_shrinks(number(HOP as nat), number(rate as nat));
    lemma_bit_len_unique(HOP as nat, 11);
    lemma_nearest_bounds(HOP as nat, 24);
    lemma_pow2_adds(10, 149);
}

/// A time on an onset is finite, as the time before was.
proof fn lemma_on_onset(t: Bits, onset: Seq<Bits>, hop: Bits)
    requires
        t < INFINITY,
        onset.len() <= u64::MAX,
        onset.len() > 0 ==> is_finite(hop) && !negative(hop) && magnitude(hop) <= pow2(159),
    ensures
        on_onset(t, onset, hop) < INFINITY,
{
    let center = at_most_index(truncated(fdiv(t, hop)));
    let reach = at_most_index(truncated(fdiv(ONSET_REACH, hop)));
    let lo = minus(center, reach);
    let hi = least(center + reach + 1, onset.len());
    if onset.len() > 0 && !at_most(hop, 0) && lo < hi {
        lemma_strongest_inside(onset, lo as int, hi as int);
        let best = strongest_onset(onset, lo as int, hi as int);
        let a = number(best as nat);
        lemma_word(best as nat);
        lemma_pow2_pos(149);
        lemma_pow2_adds(213, 159);
        lemma_pow2_adds(223, 149);
        lemma_pow2_strictly_increases(223, 277);
        lemma_ratio_pattern(magnitude(a) * magnitude(hop), pow2(149), false);
        assert(magnitude(a) * magnitude(hop) <= pow2(213) * pow2(159)) by (nonlinear_arith)
            requires
                magnitude(a) <= pow2(213),
                magnitude(hop) <= pow2(159),
        ;
        lemma_ratio_between(magnitude(a) * magnitude(hop), pow2(149), pow2(223), 24);
        lemma_power(223);
    }
}

proof fn lemma_strongest_inside(onset: Seq<Bits>, lo: int, hi: int)
    requires
        lo < hi,
    ensures
        lo <= strongest_onset(onset, lo, hi) < hi,
    decreases hi - lo,
{
    if lo + 1 < hi {
        lemma_strongest_inside(onset, lo, hi - 1);
    }
}

/// Finite times without a sign that ascend are in order.
proof fn lemma_in_order(s: Seq<Bits>, out: Seq<Bits>)
    requires
        out.to_multiset() == s.to_multiset(),
        all_numbers(s) ==> ascending(out),
        forall|i: int| 0 <= i < s.len() ==> #[trigger] s[i] < INFINITY,
    ensures
        in_order(out),
{
    s.to_multiset_ensures();
    out.to_multiset_ensures();
    assert forall|i: int| 0 <= i < out.len() implies #[trigger] out[i] < INFINITY by {
        assert(out.to_multiset().contains(out[i]));
        assert(s.contains(out[i]));
    }
    assert(all_numbers(s));
    assert forall|i: int, j: int| 0 <= i < j < out.len() implies out[i] <= out[j] by {
        lemma_pattern_order(out[i], out[j]);
    }
}

/// Detects the splits of a file, in seconds and in order. A higher sensitivity, from zero to
/// one, finds more.
pub fn detect_splits<M: Fn(Function, Bits) -> Bits, T: Fn(Vec<Bits>) -> Vec<Bin>>(
    m: &M,
    t: &T,
    mono: &Vec<Bits>,
    sample_rate: u32,
    sensitivity: Bits,
) -> (out: Vec<Bits>)
    requires
        is_total(m),
        is_transform(t),
        is_detectable(mono@.len(), sample_rate),
    ensures
        are_splits(m, t, mono@, sample_rate, sensitivity, out@),
{
    let w: Windows = match windows(mono.len(), sample_rate) {
        None => {
            let none: Vec<Bits> = Vec::new();
            assert(none@ =~= Seq::<Bits>::empty());
            return none;
        },
        Some(w) => w,
    };
    proof {
        lemma_windows_inside(mono@.len(), sample_rate, w.size as nat, w.count as nat);
        lemma_zero_one();
    }
    let duration: Bits = divide_by(from_whole(mono.len() as u64), from_whole(sample_rate as u64));
    let dynamics: Vec<Bits> = dynamics_curve(m, mono, &w);
    let harmony: (Vec<Bits>, Bits) = novelty_curve(m, t, mono, sample_rate);
    let combined: Vec<Bits> = combine(&dynamics, &harmony.0, harmony.1);
    let bent: Bits = evaluate(m, Function::ThreeHalves, clamp(sensitivity, 0, ONE));
    let raw: Vec<Bits> = raw_splits(&combined, bent, duration);
    let onset: (Vec<Bits>, Bits) = onset_strength(m, t, mono, sample_rate);
    let snapped: Vec<Bits> = snap_all(&raw, &onset.0, onset.1);
    let out: Vec<Bits> = sorted(&snapped);
    proof {
        assert(snapped@ =~= snapped_to(raw@, (onset.0@, onset.1)));
        law_raw_splits_in_order(combined@, bent, duration, raw@);
        if sample_rate > 0 {
            lemma_hop(sample_rate);
        }
        assert forall|i: int| 0 <= i < snapped@.len() implies #[trigger] snapped@[i] < INFINITY by {
            assert(off_edges(raw@[i], duration));
            lemma_off_edges(raw@[i], duration);
            lemma_on_onset(raw@[i], onset.0@, onset.1);
        }
        lemma_in_order(snapped@, out@);
        assert(leads_to(
            m,
            t,
            mono@,
            sample_rate,
            sensitivity,
            (w.size as nat, w.count as nat),
            dynamics@,
            (harmony.0@, harmony.1),
            bent,
            raw@,
            (onset.0@, onset.1),
        ));
    }
    out
}

// ---- Laws -------------------------------------------------------------------

/// Detected splits come in the order of time.
pub proof fn law_splits_in_order<M: Fn(Function, Bits) -> Bits, T: Fn(Vec<Bits>) -> Vec<Bin>>(
    m: &M,
    t: &T,
    mono: Seq<Bits>,
    rate: u32,
    sensitivity: Bits,
    out: Seq<Bits>,
)
    requires
        are_splits(m, t, mono, rate, sensitivity, out),
    ensures
        in_order(out),
{
}

/// There are never more splits than one for every ten seconds, or one.
pub proof fn law_splits_are_few<M: Fn(Function, Bits) -> Bits, T: Fn(Vec<Bits>) -> Vec<Bin>>(
    m: &M,
    t: &T,
    mono: Seq<Bits>,
    rate: u32,
    sensitivity: Bits,
    out: Seq<Bits>,
)
    requires
        are_splits(m, t, mono, rate, sensitivity, out),
    ensures
        out.len() <= most_splits(file_length(mono.len(), rate)),
{
    if let Some(w) = windows_of(mono.len(), rate) {
        let (dynamics, harmony, bent, raw, onset) = choose|
            dynamics: Seq<Bits>,
            harmony: (Seq<Bits>, Bits),
            bent: Bits,
            raw: Seq<Bits>,
            onset: (Seq<Bits>, Bits),
        | #[trigger]
            leads_to(m, t, mono, rate, sensitivity, w, dynamics, harmony, bent, raw, onset)
                && out.to_multiset() == snapped_to(raw, onset).to_multiset() && in_order(out);
        out.to_multiset_ensures();
        snapped_to(raw, onset).to_multiset_ensures();
        lemma_raw_are_few(
            strongest(dynamics, aligned(harmony.0, harmony.1, dynamics.len())),
            bent,
            file_length(mono.len(), rate),
            raw,
        );
    }
}

proof fn lemma_raw_are_few(combined: Seq<Bits>, sensitivity: Bits, duration: Bits, out: Seq<Bits>)
    requires
        are_raw_splits(combined, sensitivity, duration, out),
    ensures
        out.len() <= most_splits(duration),
{
    if positive_of(combined).len() > 0 {
        let (median, list) = choose|median: Bits, list: Seq<usize>|
            #![trigger is_choice(combined, threshold_of(median, sensitivity), duration, list)]
            {
                &&& is_median(combined, median)
                &&& is_choice(combined, threshold_of(median, sensitivity), duration, list)
                &&& out == window_times(list, duration)
            };
        let threshold = threshold_of(median, sensitivity);
        let ranks = choose|ranks: Seq<usize>|
            #[trigger] is_ranking(combined, threshold, ranks) && in_time(list) && list.to_multiset() == taken(
                ranks,
                combined.len(),
                most_splits(duration),
                ranks.len() as int,
            ).to_multiset();
        let some = taken(ranks, combined.len(), most_splits(duration), ranks.len() as int);
        list.to_multiset_ensures();
        some.to_multiset_ensures();
        lemma_taken(ranks, combined.len(), most_splits(duration), ranks.len() as int);
        lemma_fewer_times(list, duration);
    }
}

proof fn lemma_fewer_times(list: Seq<usize>, duration: Bits)
    ensures
        window_times(list, duration).len() <= list.len(),
    decreases list.len(),
{
    if list.len() > 0 {
        lemma_fewer_times(list.drop_last(), duration);
    }
}

/// Every split lies inside the file, before its end. Files of more than 3 * 2^32
/// frames are left out: there the roundings of single precision outweigh the last
/// window.
pub proof fn law_splits_inside_file<M: Fn(Function, Bits) -> Bits, T: Fn(Vec<Bits>) -> Vec<Bin>>(
    m: &M,
    t: &T,
    mono: Seq<Bits>,
    rate: u32,
    sensitivity: Bits,
    out: Seq<Bits>,
    i: int,
)
    requires
        are_splits(m, t, mono, rate, sensitivity, out),
        0 <= i < out.len(),
        mono.len() <= 0x3_0000_0000,
    ensures
        at_most(0, out[i]),
        less(out[i], file_length(mono.len(), rate)),
{
    let duration = file_length(mono.len(), rate);
    let w = windows_of(mono.len(), rate)->0;
    let (dynamics, harmony, bent, raw, onset) = choose|
        dynamics: Seq<Bits>,
        harmony: (Seq<Bits>, Bits),
        bent: Bits,
        raw: Seq<Bits>,
        onset: (Seq<Bits>, Bits),
    | #[trigger]
        leads_to(m, t, mono, rate, sensitivity, w, dynamics, harmony, bent, raw, onset)
            && out.to_multiset() == snapped_to(raw, onset).to_multiset() && in_order(out);
    let snapped = snapped_to(raw, onset);
    out.to_multiset_ensures();
    snapped.to_multiset_ensures();
    assert(out.to_multiset().count(out[i]) > 0);
    assert(snapped.contains(out[i]));
    let j = choose|j: int| 0 <= j < snapped.len() && snapped[j] == out[i];
    law_raw_splits_in_order(
        strongest(dynamics, aligned(harmony.0, harmony.1, dynamics.len())),
        bent,
        duration,
        raw,
    );
    assert(off_edges(raw[j], duration));
    lemma_off_edges_inside(raw[j], mono.len(), rate);
    lemma_onset_len(m, t, mono, rate, onset);
    assert(out[i] < INFINITY);
    lemma_zero(0);
    lemma_zero(out[i]);
    lemma_onset_inside(raw[j], onset.0, onset.1, mono.len(), rate);
}

/// There is a moment of the onset curve for every slice.
proof fn lemma_onset_len<M: Fn(Function, Bits) -> Bits, T: Fn(Vec<Bits>) -> Vec<Bin>>(
    m: &M,
    t: &T,
    mono: Seq<Bits>,
    rate: u32,
    onset: (Seq<Bits>, Bits),
)
    requires
        is_onset_curve(m, t, mono, rate, onset),
    ensures
        onset.0.len() > 0 ==> {
            &&& rate > 0
            &&& mono.len() >= 2 * WINDOW
            &&& onset.0.len() == slices_of(mono.len())
            &&& onset.1 == fdiv(number(HOP as nat), number(rate as nat))
        },
{
    if mono.len() >= WINDOW * 2 && rate > 0 {
        let (window, mags) = choose|window: Seq<Bits>, mags: Seq<Vec<Bits>>|
            #![trigger are_slices(m, t, mono, window, mags)]
            {
                &&& is_hann(m, WINDOW as nat, window)
                &&& are_slices(m, t, mono, window, mags)
                &&& is_scaled_positive(flux_of(mags), onset.0)
            };
        assert(flux_of(mags).len() == mags.len());
    }
}

proof fn lemma_off_edges_inside(t: Bits, len: nat, rate: u32)
    requires
        off_edges(t, file_length(len, rate)),
        len <= u64::MAX,
        rate > 0,
    ensures
        less(t, file_length(len, rate)),
{
    let d = file_length(len, rate);
    lemma_word(len);
    lemma_word(rate as nat);
    lemma_shrinks(number(len), number(rate as nat));
    lemma_negated(EDGE);
    assert(unsigned(EDGE) == EDGE);
    lemma_sum_down(d, negated(EDGE));
}

/// Rounding a whole number moves it by at most a 2^24-th.
proof fn lemma_rounded(n: nat)
    ensures
        nearest(n, 24) * 0x100_0000 <= n * 0x100_0001,
        n * 0xff_ffff <= nearest(n, 24) * 0x100_0000,
{
    lemma2_to64();
    lemma_ratio_error(n, 1, 24);
    assert(n / 1 == n);
    assert(nearest(n, 24) * 1 * pow2(24) == nearest(n, 24) * 0x100_0000);
    if bit_len(n) < 24 {
        lemma_nearest_bounds(n, 24);
    }
}

/// A moment of the onset curve lies inside the file, where its slice does.
proof fn lemma_moment_inside(best: nat, len: nat, rate: u32)
    requires
        rate > 0,
        best * HOP + WINDOW <= len <= 0x3_0000_0000,
    ensures
        less(
            fmul(number(best), fdiv(number(HOP as nat), number(rate as nat))),
            file_length(len, rate),
        ),
{
    lemma2_to64();
    lemma2_to64_rest();
    lemma_word(best);
    lemma_word(len);
    lemma_word(rate as nat);
    lemma_word(HOP as nat);
    lemma_bit_len_unique(HOP as nat, 11);
    lemma_nearest_bounds(HOP as nat, 24);
    lemma_hop(rate);
    let w = pow2(149);
    lemma_pow2_pos(149);
    let b = nearest(best, 24);
    let l = nearest(len, 24);
    let r = nearest(rate as nat, 24);
    lemma_rounded(best);
    lemma_rounded(len);
    let hop = fdiv(number(HOP as nat), number(rate as nat));
    let h = magnitude(hop);
    lemma_moment_hop(rate);
    assert(h * r * 0x100_0000 <= 1024 * w * 0x100_0001);
    lemma_moment_bound(b as int, best as int, (h * r) as int, l as int, len as int, w as int);
    // the product
    let num = magnitude(number(best)) * h;
    lemma_ratio_pattern(num, w, negative(number(best)) != negative(hop));
    assert(num == (b * h) * w) by (nonlinear_arith)
        requires
            num == (b * w) * h,
    ;
    lemma_ratio_between(num, w, b * h, 24);
    // the length
    let top = magnitude(number(len)) * w;
    let den = magnitude(number(rate as nat));
    lemma_ratio_pattern(top, den, false);
    let k: int = 0x100_0000;
    assert(((b * h) * den) * (k + 1) < top * (k - 1)) by (nonlinear_arith)
        requires
            (b * (h * r)) * (k + 1) < (l * w) * (k - 1),
            den == r * w,
            top == (l * w) * w,
            w > 0,
    ;
    lemma_zero(number(rate as nat));
    assert(l >= 1) by (nonlinear_arith)
        requires
            l * w >= w,
            w > 0,
    ;
    lemma_long_quotient(l, rate);
    lemma_ratio_error(top, den, 24);
    let d = nearest_ratio(top, den, 24);
    let p = nearest(b * h, 24);
    lemma_rounded(b * h);
    assert(nearest_ratio(num, w, 24) == p);
    assert(p < d) by (nonlinear_arith)
        requires
            p * k <= (b * h) * (k + 1),
            ((b * h) * den) * (k + 1) < top * (k - 1),
            top * k <= d * den * k + top,
            den > 0,
            k == 0x100_0000,
    ;
    lemma_shrinks(number(len), number(rate as nat));
    let length = file_length(len, rate);
    assert(magnitude(length) == d);
    lemma_magnitude_order(length, INFINITY);
    lemma_infinity();
    assert(unsigned(INFINITY) == INFINITY);
}

/// The quotient of a length by a rate has many digits.
proof fn lemma_long_quotient(l: nat, rate: u32)
    requires
        l >= 1,
        rate > 0,
    ensures
        bit_len(((l * pow2(149)) * pow2(149)) / magnitude(number(rate as nat))) >= 24,
        magnitude(number(rate as nat)) == nearest(rate as nat, 24) * pow2(149),
        magnitude(number(rate as nat)) > 0,
{
    lemma2_to64();
    lemma2_to64_rest();
    lemma_word(rate as nat);
    let w = pow2(149);
    lemma_pow2_pos(149);
    let r = nearest(rate as nat, 24);
    let num = (l * w) * w;
    let den = magnitude(number(rate as nat));
    lemma_power(32);
    lemma_nearest_monotone(rate as nat, pow2(32), 24);
    assert(r <= 0x1_0000_0000);
    let q = num / den;
    lemma_pow2_adds(32, 117);
    let floor = pow2(117);
    assert(floor * den <= num) by (nonlinear_arith)
        requires
            den == r * w,
            r <= 0x1_0000_0000,
            l >= 1,
            num == (l * w) * w,
            w == 0x1_0000_0000 * floor,
    ;
    vstd::arithmetic::div_mod::lemma_fundamental_div_mod(num as int, den as int);
    vstd::arithmetic::div_mod::lemma_mod_bound(num as int, den as int);
    assert(q >= floor) by (nonlinear_arith)
        requires
            num == den * q + num % den,
            0 <= num % den < den,
            floor * den <= num,
    ;
    lemma_bit_len_monotone(floor, q);
    lemma_pow2_strictly_increases(117, 118);
    lemma_bit_len_unique(floor, 118);
}

/// The time between two moments is at most a 2^24-th too long.
proof fn lemma_moment_hop(rate: u32)
    requires
        rate > 0,
    ensures
        magnitude(fdiv(number(HOP as nat), number(rate as nat))) * nearest(rate as nat, 24) * 0x100_0000
            <= 1024 * pow2(149) * 0x100_0001,
{
    lemma2_to64();
    lemma2_to64_rest();
    lemma_word(rate as nat);
    lemma_word(HOP as nat);
    lemma_bit_len_unique(HOP as nat, 11);
    lemma_nearest_bounds(HOP as nat, 24);
    lemma_hop(rate);
    let w = pow2(149);
    lemma_pow2_pos(149);
    let r = nearest(rate as nat, 24);
    let num = magnitude(number(HOP as nat)) * w;
    let den = magnitude(number(rate as nat));
    lemma_ratio_pattern(num, den, false);
    lemma_ratio_error(num, den, 24);
    lemma_zero(number(rate as nat));
    lemma_long_quotient(1024, rate);
    let h = magnitude(fdiv(number(HOP as nat), number(rate as nat)));
    assert(h * r * 0x100_0000 <= 1024 * w * 0x100_0001) by (nonlinear_arith)
        requires
            h * den * 0x100_0000 <= num * 0x100_0000 + num,
            den == r * w,
            num == (1024 * w) * w,
            w > 0,
    ;
}

/// The roundings do not make up for a window.
proof fn lemma_moment_bound(b: int, best: int, x: int, l: int, len: int, w: int)
    requires
        b >= 0,
        x >= 0,
        w > 0,
        best >= 0,
        best * 1024 + 4096 <= len <= 0x3_0000_0000,
        b * 0x100_0000 <= best * 0x100_0001,
        len * 0xff_ffff <= l * 0x100_0000,
        x * 0x100_0000 <= 1024 * w * 0x100_0001,
    ensures
        (b * x) * 0x100_0001 < (l * w) * 0xff_ffff,
{
    let k: int = 0x100_0000;
    let p = b * k;
    let q = x * k;
    let p2 = best * (k + 1);
    let q2 = (1024 * (k + 1)) * w;
    assert(q2 == 1024 * w * 0x100_0001) by (nonlinear_arith)
        requires
            q2 == (1024 * (k + 1)) * w,
            k == 0x100_0000,
    ;
    assert(p * q <= p2 * q2) by (nonlinear_arith)
        requires
            0 <= p <= p2,
            0 <= q <= q2,
    ;
    assert(p * q == (b * x) * (k * k)) by (nonlinear_arith)
        requires
            p == b * k,
            q == x * k,
    ;
    assert(p2 * q2 == (best * 1024 * ((k + 1) * (k + 1))) * w) by (nonlinear_arith)
        requires
            p2 == best * (k + 1),
            q2 == (1024 * (k + 1)) * w,
    ;
    let c = best * 1024 * ((k + 1) * (k + 1));
    assert(k * k == 0x1_0000_0000_0000 && (k + 1) * (k + 1) == 0x1_0000_0200_0001);
    assert(c == best * 1024 * 0x1_0000_0200_0001);
    assert(c * 0x100_0001 < l * 0xff_ffff * 0x1_0000_0000_0000);
    assert((c * 0x100_0001) * w < (l * 0xff_ffff * 0x1_0000_0000_0000) * w) by (nonlinear_arith)
        requires
            c * 0x100_0001 < l * 0xff_ffff * 0x1_0000_0000_0000,
            w > 0,
    ;
    let y = b * x;
    let z = l * w;
    assert((l * 0xff_ffff * 0x1_0000_0000_0000) * w == (z * 0xff_ffff) * 0x1_0000_0000_0000) by (nonlinear_arith)
        requires
            z == l * w,
    ;
    assert((c * 0x100_0001) * w == (c * w) * 0x100_0001) by (nonlinear_arith);
    assert(y * 0x1_0000_0000_0000 <= c * w);
}

proof fn lemma_onset_inside(t: Bits, onset: Seq<Bits>, hop: Bits, len: nat, rate: u32)
    requires
        less(t, file_length(len, rate)),
        len <= 0x3_0000_0000,
        onset.len() > 0 ==> {
            &&& rate > 0
            &&& len >= 2 * WINDOW
            &&& onset.len() == slices_of(len)
            &&& hop == fdiv(number(HOP as nat), number(rate as nat))
        },
    ensures
        less(on_onset(t, onset, hop), file_length(len, rate)),
{
    let center = at_most_index(truncated(fdiv(t, hop)));
    let reach = at_most_index(truncated(fdiv(ONSET_REACH, hop)));
    let lo = minus(center, reach);
    let hi = least(center + reach + 1, onset.len());
    if onset.len() > 0 && !at_most(hop, 0) && lo < hi {
        lemma_strongest_inside(onset, lo as int, hi as int);
        let best = strongest_onset(onset, lo as int, hi as int);
        assert(best <= (len - WINDOW) / 1024);
        lemma_moment_inside(best as nat, len, rate);
    }
}

/// The windows taken keep their distance from each other and from the ends of
/// the file, and there are never too many.
pub proof fn law_splits_keep_distance(list: Seq<usize>, n: nat, limit: nat, k: int, i: int, j: int)
    requires
        0 <= k <= list.len(),
        0 <= i < j < taken(list, n, limit, k).len(),
    ensures
        ({
            let t = taken(list, n, limit, k);
            &&& gap(t[i], t[j]) >= MIN_ZONE_WINDOWS
            &&& MIN_ZONE_WINDOWS <= t[i]
            &&& t[i] + MIN_ZONE_WINDOWS <= n
            &&& t.len() <= limit
        }),
    decreases k,
{
    let t = taken(list, n, limit, k);
    let before = taken(list, n, limit, k - 1);
    lemma_taken(list, n, limit, k);
    if t.len() != before.len() && j == before.len() {
        assert(gap(before[i], list[k - 1]) >= MIN_ZONE_WINDOWS);
        assert(t[i] == before[i]);
    } else {
        law_splits_keep_distance(list, n, limit, k - 1, i, j);
    }
}

proof fn lemma_taken(list: Seq<usize>, n: nat, limit: nat, k: int)
    requires
        0 <= k <= list.len(),
    ensures
        taken(list, n, limit, k).len() <= limit,
        forall|m: int|
            0 <= m < taken(list, n, limit, k).len() ==> MIN_ZONE_WINDOWS <= (#[trigger] taken(
                list,
                n,
                limit,
                k,
            )[m]) && taken(list, n, limit, k)[m] + MIN_ZONE_WINDOWS <= n,
    decreases k,
{
    if k > 0 {
        lemma_taken(list, n, limit, k - 1);
    }
}

/// Two rankings of the peaks of one curve are the same, so detection has one
/// outcome.
pub proof fn law_ranking_is_unique(c: Seq<Bits>, threshold: Bits, a: Seq<usize>, b: Seq<usize>)
    requires
        is_ranking(c, threshold, a),
        is_ranking(c, threshold, b),
    ensures
        a == b,
{
    lemma_same_start(c, threshold, a, b, a.len() as int);
    lemma_same_start(c, threshold, b, a, b.len() as int);
    assert(a =~= b);
}

/// The first `n` peaks of one ranking are those of the other.
proof fn lemma_same_start(c: Seq<Bits>, threshold: Bits, a: Seq<usize>, b: Seq<usize>, n: int)
    requires
        is_ranking(c, threshold, a),
        is_ranking(c, threshold, b),
        0 <= n <= a.len(),
    ensures
        n <= b.len(),
        forall|k: int| 0 <= k < n ==> a[k] == b[k],
    decreases n,
{
    if n > 0 {
        lemma_same_start(c, threshold, a, b, n - 1);
        let x = a[n - 1];
        assert(is_peak(c, threshold, x as int));
        let m = choose|m: int| 0 <= m < b.len() && b[m] == x;
        lemma_peak_number(c, threshold, x as int);
        if m < n - 1 {
            assert(a[m] == b[m]);
            assert(comes_first(c, a[m] as int, a[n - 1] as int));
        }
        if m > n - 1 {
            let y = b[n - 1];
            assert(is_peak(c, threshold, y as int));
            lemma_peak_number(c, threshold, y as int);
            assert(comes_first(c, b[n - 1] as int, b[m] as int));
            let k = choose|k: int| 0 <= k < a.len() && a[k] == y;
            if k < n - 1 {
                assert(a[k] == b[k]);
                assert(comes_first(c, b[k] as int, b[n - 1] as int));
            } else if k > n - 1 {
                assert(comes_first(c, a[n - 1] as int, a[k] as int));
            }
        }
    }
}

} // verus!
