//! Envelopes for display, mono mixes, and zero crossings.

use vstd::prelude::*;
use vstd::arithmetic::div_mod::*;
use vstd::arithmetic::mul::*;
use vstd::arithmetic::power2::*;
use crate::accuracy::{one, lemma_near_number, lemma_one, lemma_product_error, lemma_quotient_error};
use crate::arith::{number, from_whole, lemma_ratio_pattern, lemma_sum};
use crate::curves::lemma_divided;
use crate::dsp::lemma_absolute;
use crate::columns::{highest, lowest, scan, lemma_full_scale};
use crate::plan::{least, most, minus, min_index, max_index};
use crate::single::{MINUS_ONE, THOUSAND};
use crate::single::{Bits, INFINITY, ONE, is_nan, is_finite, negative, unsigned, magnitude, not_a_number, at_most, is_at_most, clamped, clamp, at_most_index, value, significand, last_digit, lemma_magnitude_order, lemma_zero};
use crate::fft::{lemma_power, lemma_word};
use crate::rounding::{bit_len, nearest, lemma_bit_len, lemma_nearest_bounds, lemma_nearest_scaled, lemma_ratio_between};
use crate::scalar::{fadd, fmul, fdiv, fmax, fabs, truncated, lemma_zero_one};
use crate::scalar::{add_to, multiply, divide_by, larger, absolute, truncate};

verus! {

// ---- Buckets ----------------------------------------------------------------

/// Frames in one of `width` buckets, at least one.
pub open spec fn bucket_size(len: nat, width: nat) -> Bits {
    fmax(fdiv(number(len), number(width)), ONE)
}

/// The frames of bucket `i`: at least one, and none past the end unless the
/// bucket starts there.
pub open spec fn bucket(i: nat, width: nat, len: nat) -> (nat, nat) {
    let size = bucket_size(len, width);
    let start = at_most_index(truncated(fmul(number(i), size)));
    let end = at_most_index(truncated(fmul(fadd(number(i), ONE), size)));
    (start, most(least(end, len), start + 1))
}

/// A number as an index, cut off behind the point.
pub fn to_index(b: Bits) -> (r: usize)
    ensures
        r == at_most_index(truncated(b)),
{
    let n: u64 = truncate(b);
    if n > usize::MAX as u64 {
        usize::MAX
    } else {
        n as usize
    }
}

/// Frames in one of `width` buckets.
pub fn frames_per_bucket(len: usize, width: usize) -> (r: Bits)
    ensures
        r == bucket_size(len as nat, width as nat),
{
    larger(divide_by(from_whole(len as u64), from_whole(width as u64)), ONE)
}

/// The first frame of bucket `i`.
pub fn bucket_start(i: usize, width: usize, len: usize) -> (r: usize)
    ensures
        r == bucket(i as nat, width as nat, len as nat).0,
{
    to_index(multiply(from_whole(i as u64), frames_per_bucket(len, width)))
}

/// The frames of bucket `i`.
pub fn bucket_frames(i: usize, width: usize, len: usize) -> (r: (usize, usize))
    requires
        bucket(i as nat, width as nat, len as nat).0 < len,
    ensures
        (r.0 as nat, r.1 as nat) == bucket(i as nat, width as nat, len as nat),
        r.0 < r.1 <= len,
{
    let start: usize = bucket_start(i, width, len);
    let size: Bits = frames_per_bucket(len, width);
    let end: usize = to_index(multiply(add_to(from_whole(i as u64), ONE), size));
    (start, max_index(min_index(end, len), start + 1))
}

/// The extremes of the frames from `a` up to `b`, cut at full scale: the least
/// and the greatest.
pub open spec fn point(s: Seq<Bits>, a: nat, b: nat) -> (Bits, Bits) {
    (
        clamped(lowest(s, a as int, b as int), MINUS_ONE, ONE),
        clamped(highest(s, a as int, b as int), MINUS_ONE, ONE),
    )
}

/// The envelope of a mono signal in `width` buckets. A signal with fewer frames
/// than buckets fills the first ones; what lies past its end is silent.
pub open spec fn envelope(mono: Seq<Bits>, width: nat) -> Seq<(Bits, Bits)> {
    if mono.len() == 0 {
        Seq::empty()
    } else {
        Seq::new(
            width,
            |i: int|
                {
                    let (a, b) = bucket(i as nat, width, mono.len());
                    if a < mono.len() {
                        point(mono, a, b)
                    } else {
                        (0, 0)
                    }
                },
        )
    }
}

/// The envelope of a mono signal in `width` buckets.
pub fn build_envelope(mono: &Vec<Bits>, width: usize) -> (env: Vec<(Bits, Bits)>)
    ensures
        env@ == envelope(mono@, width as nat),
{
    let mut env: Vec<(Bits, Bits)> = Vec::new();
    if mono.len() == 0 {
        return env;
    }
    proof {
        lemma_full_scale();
    }
    let mut i: usize = 0;
    while i < width
        invariant
            mono@.len() > 0,
            at_most(MINUS_ONE, ONE),
            i <= width,
            env@ =~= envelope(mono@, width as nat).take(i as int),
        decreases width - i,
    {
        if bucket_start(i, width, mono.len()) < mono.len() {
            let (a, b): (usize, usize) = bucket_frames(i, width, mono.len());
            let (hi, lo): (Bits, Bits) = scan(mono, a, b);
            env.push((clamp(lo, MINUS_ONE, ONE), clamp(hi, MINUS_ONE, ONE)));
        } else {
            env.push((0, 0));
        }
        i = i + 1;
    }
    env
}

// ---- Every n-th frame -------------------------------------------------------

/// The frames from `a` on up to `b`, in steps.
pub open spec fn stepped(a: nat, b: nat, step: nat) -> Seq<nat>
    decreases minus(b, a),
{
    if a >= b || step == 0 {
        Seq::empty()
    } else {
        seq![a] + stepped(a + step, b, step)
    }
}

/// The frames that a preview looks at in bucket `i`.
pub fn preview_frames(i: usize, width: usize, len: usize, decim: usize) -> (list: Vec<usize>)
    requires
        bucket(i as nat, width as nat, len as nat).0 < len,
    ensures
        ({
            let (a, b) = bucket(i as nat, width as nat, len as nat);
            list@.map_values(|f: usize| f as nat) == stepped(a, b, most(decim as nat, 1))
        }),
        forall|k: int| 0 <= k < list@.len() ==> #[trigger] list@[k] < len,
{
    let step: usize = max_index(decim, 1);
    let (a, b): (usize, usize) = bucket_frames(i, width, len);
    let mut list: Vec<usize> = Vec::new();
    let mut f: usize = a;
    let ghost whole = stepped(a as nat, b as nat, step as nat);
    assert(list@.map_values(|x: usize| x as nat) + whole =~= whole);
    while f < b
        invariant
            step >= 1,
            b <= len,
            list@.map_values(|x: usize| x as nat) + stepped(f as nat, b as nat, step as nat) == whole,
            forall|k: int| 0 <= k < list@.len() ==> #[trigger] list@[k] < len,
        decreases b - f,
    {
        let ghost before = list@;
        let ghost rest = stepped((f + step) as nat, b as nat, step as nat);
        list.push(f);
        proof {
            assert(list@.map_values(|x: usize| x as nat) =~= before.map_values(|x: usize| x as nat).push(
                f as nat,
            ));
            assert(before.map_values(|x: usize| x as nat) + (seq![f as nat] + rest)
                =~= list@.map_values(|x: usize| x as nat) + rest);
        }
        if step >= b - f {
            proof {
                assert(rest =~= Seq::empty());
                assert(list@.map_values(|x: usize| x as nat) + rest =~= list@.map_values(|x: usize| x as nat));
                assert(stepped(b as nat, b as nat, step as nat) =~= Seq::empty());
            }
            f = b;
        } else {
            f = f + step;
        }
    }
    assert(list@.map_values(|x: usize| x as nat) + Seq::<nat>::empty() =~= list@.map_values(|x: usize| x as nat));
    list
}

/// The extremes of a bucket of which only some values were looked at; the first
/// one where the least is not finite.
pub open spec fn sparse_point(values: Seq<Bits>) -> (Bits, Bits) {
    let lo = lowest(values, 0, values.len() as int);
    let hi = highest(values, 0, values.len() as int);
    if is_finite(lo) || values.len() == 0 {
        (lo, hi)
    } else {
        (values[0], values[0])
    }
}

/// The extremes of a bucket of which only some values were looked at.
pub fn preview_point(values: &Vec<Bits>) -> (r: (Bits, Bits))
    ensures
        r == sparse_point(values@),
{
    let (hi, lo): (Bits, Bits) = scan(values, 0, values.len());
    if lo % 0x8000_0000 < INFINITY || values.len() == 0 {
        (lo, hi)
    } else {
        (values[0], values[0])
    }
}

/// The values of a mono signal at some frames, amplified.
pub open spec fn values_at(mono: Seq<Bits>, frames: Seq<nat>, gain: Bits) -> Seq<Bits> {
    frames.map_values(|f: nat| fmul(mono[f as int], gain))
}

/// The envelope of an amplified mono signal, from every `decim`-th frame. What lies
/// past its end is silent.
pub open spec fn sparse_envelope(mono: Seq<Bits>, gain: Bits, width: nat, decim: nat) -> Seq<(Bits, Bits)> {
    if mono.len() == 0 {
        Seq::empty()
    } else {
        Seq::new(
            width,
            |i: int|
                {
                    let (a, b) = bucket(i as nat, width, mono.len());
                    if a < mono.len() {
                        cut(sparse_point(values_at(mono, stepped(a, b, most(decim, 1)), gain)))
                    } else {
                        (0, 0)
                    }
                },
        )
    }
}

/// A point, cut at full scale.
pub open spec fn cut(p: (Bits, Bits)) -> (Bits, Bits) {
    (clamped(p.0, MINUS_ONE, ONE), clamped(p.1, MINUS_ONE, ONE))
}

/// The envelope of an amplified mono signal, from every `decim`-th frame.
pub fn envelope_decimated_mono(mono: &Vec<Bits>, gain: Bits, width: usize, decim: usize) -> (env: Vec<
    (Bits, Bits),
>)
    ensures
        env@ == sparse_envelope(mono@, gain, width as nat, decim as nat),
{
    let mut env: Vec<(Bits, Bits)> = Vec::new();
    if mono.len() == 0 {
        return env;
    }
    proof {
        lemma_full_scale();
    }
    let mut i: usize = 0;
    while i < width
        invariant
            mono@.len() > 0,
            at_most(MINUS_ONE, ONE),
            i <= width,
            env@ =~= sparse_envelope(mono@, gain, width as nat, decim as nat).take(i as int),
        decreases width - i,
    {
        if bucket_start(i, width, mono.len()) >= mono.len() {
            env.push((0, 0));
            i = i + 1;
            continue ;
        }
        let frames: Vec<usize> = preview_frames(i, width, mono.len(), decim);
        let ghost wanted = frames@.map_values(|f: usize| f as nat);
        let mut values: Vec<Bits> = Vec::new();
        let mut k: usize = 0;
        while k < frames.len()
            invariant
                k <= frames@.len(),
                wanted == frames@.map_values(|f: usize| f as nat),
                forall|j: int| 0 <= j < frames@.len() ==> #[trigger] frames@[j] < mono@.len(),
                values@ =~= values_at(mono@, wanted, gain).take(k as int),
            decreases frames@.len() - k,
        {
            values.push(multiply(mono[frames[k]], gain));
            k = k + 1;
        }
        proof {
            assert(values@ =~= values_at(mono@, wanted, gain));
        }
        let (lo, hi): (Bits, Bits) = preview_point(&values);
        env.push((clamp(lo, MINUS_ONE, ONE), clamp(hi, MINUS_ONE, ONE)));
        i = i + 1;
    }
    env
}

// ---- Mono -------------------------------------------------------------------

/// The first `c` samples of a frame, added up in order.
pub open spec fn channel_sum(samples: Seq<Bits>, base: int, c: int) -> Bits
    decreases c,
{
    if c <= 0 {
        0
    } else {
        fadd(channel_sum(samples, base, c - 1), samples[base + c - 1])
    }
}

/// A file mixed to one channel: the mean of each frame.
pub open spec fn mono_mix(samples: Seq<Bits>, ch: nat) -> Seq<Bits> {
    if ch == 1 {
        samples
    } else {
        Seq::new(
            samples.len() / ch,
            |f: int| fdiv(channel_sum(samples, f * ch, ch as int), number(ch)),
        )
    }
}

/// A file mixed to one channel, by multiplication with the inverse of the
/// channel count.
pub open spec fn quick_mix(samples: Seq<Bits>, ch: nat) -> Seq<Bits> {
    if ch == 1 {
        samples
    } else {
        Seq::new(
            samples.len() / ch,
            |f: int| fmul(channel_sum(samples, f * ch, ch as int), fdiv(ONE, number(ch))),
        )
    }
}

/// The sum of one frame.
pub fn sum_frame(samples: &Vec<Bits>, base: usize, ch: usize) -> (r: Bits)
    requires
        base + ch <= samples@.len(),
    ensures
        r == channel_sum(samples@, base as int, ch as int),
{
    let total: usize = samples.len();
    let mut acc: Bits = 0;
    let mut c: usize = 0;
    while c < ch
        invariant
            base + ch <= samples@.len(),
            samples@.len() <= usize::MAX,
            c <= ch,
            acc == channel_sum(samples@, base as int, c as int),
        decreases ch - c,
    {
        acc = add_to(acc, samples[base + c]);
        c = c + 1;
    }
    acc
}

fn copied(s: &Vec<Bits>) -> (r: Vec<Bits>)
    ensures
        r@ == s@,
{
    let mut r: Vec<Bits> = Vec::new();
    let mut i: usize = 0;
    while i < s.len()
        invariant
            i <= s@.len(),
            r@ =~= s@.take(i as int),
        decreases s@.len() - i,
    {
        r.push(s[i]);
        i = i + 1;
    }
    assert(s@.take(s@.len() as int) =~= s@);
    r
}

/// One frame of a file lies inside it.
pub proof fn lemma_frame_inside(f: nat, ch: nat, len: nat)
    requires
        ch > 0,
        f < len / ch,
    ensures
        f * ch + ch <= len,
{
    lemma_fundamental_div_mod(len as int, ch as int);
    lemma_mod_bound(len as int, ch as int);
    assert(f * ch + ch <= ch * (len / ch)) by (nonlinear_arith)
        requires
            f + 1 <= len / ch,
            ch > 0,
    ;
}

/// Mixes interleaved samples to one channel: the mean of each frame.
pub fn mix_to_mono(samples: &Vec<Bits>, ch: usize) -> (mono: Vec<Bits>)
    requires
        ch > 0,
    ensures
        mono@ == mono_mix(samples@, ch as nat),
{
    if ch == 1 {
        return copied(samples);
    }
    let scale: Bits = from_whole(ch as u64);
    let frames: usize = samples.len() / ch;
    let mut mono: Vec<Bits> = Vec::new();
    let mut f: usize = 0;
    while f < frames
        invariant
            ch > 1,
            scale == number(ch as nat),
            frames == samples@.len() / (ch as nat),
            f <= frames,
            mono@ =~= mono_mix(samples@, ch as nat).take(f as int),
        decreases frames - f,
    {
        proof {
            lemma_frame_inside(f as nat, ch as nat, samples@.len());
            assert(samples.len() <= usize::MAX);
        }
        mono.push(divide_by(sum_frame(samples, f * ch, ch), scale));
        f = f + 1;
    }
    mono
}

/// Mixes interleaved samples to one channel, by multiplication with the inverse
/// of the channel count.
pub fn mono_from_interleaved(samples: &Vec<Bits>, channels: u16) -> (mono: Vec<Bits>)
    ensures
        mono@ == quick_mix(samples@, crate::audio_io::at_least_one(channels)),
{
    let ch: usize = if channels == 0 {
        1
    } else {
        channels as usize
    };
    if ch == 1 {
        return copied(samples);
    }
    let scale: Bits = divide_by(ONE, from_whole(ch as u64));
    let frames: usize = samples.len() / ch;
    let mut mono: Vec<Bits> = Vec::new();
    let mut f: usize = 0;
    while f < frames
        invariant
            ch > 1,
            scale == fdiv(ONE, number(ch as nat)),
            frames == samples@.len() / (ch as nat),
            f <= frames,
            mono@ =~= quick_mix(samples@, ch as nat).take(f as int),
        decreases frames - f,
    {
        proof {
            lemma_frame_inside(f as nat, ch as nat, samples@.len());
            assert(samples.len() <= usize::MAX);
        }
        mono.push(multiply(sum_frame(samples, f * ch, ch), scale));
        f = f + 1;
    }
    mono
}

// ---- Zero crossings ---------------------------------------------------------

/// The signal changes sign between sample `i - 1` and sample `i`, or is zero
/// there.
pub open spec fn crosses(mono: Seq<Bits>, i: int) -> bool {
    at_most(mono[i - 1], 0) && at_most(0, mono[i]) || at_most(0, mono[i - 1]) && at_most(mono[i], 0)
}

pub open spec fn apart(a: int, b: int) -> int {
    if a < b {
        b - a
    } else {
        a - b
    }
}

/// The crossing from `lo` up to `hi` that is closest to `target`, the earlier
/// one of two.
pub open spec fn is_closest(mono: Seq<Bits>, lo: int, hi: int, target: int, f: int) -> bool {
    &&& lo <= f < hi
    &&& crosses(mono, f)
    &&& forall|j: int|
        lo <= j < hi && #[trigger] crosses(mono, j) ==> apart(f, target) < apart(j, target) || (apart(
            f,
            target,
        ) == apart(j, target) && f <= j)
}

/// The frames that are searched around `target`: from the first on, up to the
/// second. An end before the file counts as the file's end.
pub open spec fn search_range(target: int, reach: int, len: int) -> (int, int) {
    let lo = if target - reach < 1 {
        1
    } else {
        target - reach
    };
    let hi = if target + reach < 0 {
        target + reach + usize::MAX + 1
    } else {
        target + reach
    };
    (
        lo,
        if hi < len - 1 {
            hi
        } else {
            len - 1
        },
    )
}

/// A number without its fraction, as a signed index: zero for what is not a
/// number, and the greatest or least index where it is too large.
pub open spec fn signed_index(b: Bits) -> int {
    let m = truncated(fabs(b)) as int;
    if is_nan(b) {
        0
    } else if negative(b) {
        if m > isize::MAX + 1 {
            isize::MIN as int
        } else {
            -m
        }
    } else {
        if m > isize::MAX {
            isize::MAX as int
        } else {
            m
        }
    }
}

fn to_signed_index(b: Bits) -> (r: isize)
    ensures
        r == signed_index(b),
{
    if not_a_number(b) {
        return 0;
    }
    let m: u64 = truncate(absolute(b));
    if b >= 0x8000_0000 {
        if m > isize::MAX as u64 {
            isize::MIN
        } else {
            -(m as isize)
        }
    } else {
        if m > isize::MAX as u64 {
            isize::MAX
        } else {
            m as isize
        }
    }
}

/// The frame of a time.
pub open spec fn target_frame(t: Bits, rate: u32) -> int {
    signed_index(fmul(t, number(rate as nat)))
}

/// The frames that a window of some milliseconds reaches to either side.
pub open spec fn window_reach(window_ms: Bits, rate: u32) -> int {
    signed_index(fmul(fdiv(window_ms, THOUSAND), number(rate as nat)))
}

/// A time moved to a zero crossing. `f` is the crossing's frame.
pub open spec fn crossing_time(f: int, rate: u32) -> Bits {
    fdiv(number(f as nat), number(rate as nat))
}

/// A time moved to the closest zero crossing within a window of some
/// milliseconds to either side, or left where there is none.
pub open spec fn snapped(mono: Seq<Bits>, rate: u32, t: Bits, window_ms: Bits, r: Bits) -> bool {
    let target = target_frame(t, rate);
    let (lo, hi) = search_range(target, window_reach(window_ms, rate), mono.len() as int);
    if mono.len() == 0 || rate == 0 || forall|f: int| lo <= f < hi ==> !#[trigger] crosses(mono, f) {
        r == t
    } else {
        exists|f: int| #[trigger] is_closest(mono, lo, hi, target, f) && r == crossing_time(f, rate)
    }
}

/// Moves a time to the closest zero crossing within a window of some
/// milliseconds to either side; leaves it where there is none.
pub fn snap_to_zero_crossing(mono: &Vec<Bits>, sample_rate: u32, target_secs: Bits, window_ms: Bits) -> (r:
    Bits)
    ensures
        snapped(mono@, sample_rate, target_secs, window_ms, r),
{
    if mono.len() == 0 || sample_rate == 0 {
        return target_secs;
    }
    let rate: Bits = from_whole(sample_rate as u64);
    let target: i128 = to_signed_index(multiply(target_secs, rate)) as i128;
    let reach: i128 = to_signed_index(multiply(divide_by(window_ms, THOUSAND), rate)) as i128;
    let last: i128 = mono.len() as i128 - 1;
    let lo: i128 = if target - reach < 1 {
        1
    } else {
        target - reach
    };
    let end: i128 = if target + reach < 0 {
        target + reach + usize::MAX as i128 + 1
    } else {
        target + reach
    };
    let hi: i128 = if end < last {
        end
    } else {
        last
    };
    if hi <= lo {
        return target_secs;
    }
    let mut best: Option<(usize, i128)> = None;
    let mut i: usize = lo as usize;
    while i < hi as usize
        invariant
            1 <= lo < hi <= last,
            last == mono@.len() - 1,
            isize::MIN <= target <= isize::MAX,
            lo <= i <= hi,
            best matches Some((f, d)) ==> d == apart(f as int, target as int) && is_closest(
                mono@,
                lo as int,
                i as int,
                target as int,
                f as int,
            ),
            best is None ==> forall|j: int| lo <= j < i ==> !#[trigger] crosses(mono@, j),
        decreases hi - i,
    {
        let prev: Bits = mono[i - 1];
        let cur: Bits = mono[i];
        if is_at_most(prev, 0) && is_at_most(0, cur) || is_at_most(0, prev) && is_at_most(cur, 0) {
            assert(crosses(mono@, i as int));
            let d: i128 = if (i as i128) < target {
                target - i as i128
            } else {
                i as i128 - target
            };
            match best {
                Some((_, bd)) => {
                    if d < bd {
                        best = Some((i, d));
                    }
                },
                None => {
                    best = Some((i, d));
                },
            }
        } else {
            assert(!crosses(mono@, i as int));
        }
        i = i + 1;
    }
    match best {
        None => target_secs,
        Some((f, _)) => divide_by(from_whole(f as u64), rate),
    }
}

// ---- Laws -------------------------------------------------------------------

/// Only one crossing is the closest, so snapping has one outcome.
pub proof fn law_snap_is_unique(mono: Seq<Bits>, rate: u32, t: Bits, window_ms: Bits, a: Bits, b: Bits)
    requires
        snapped(mono, rate, t, window_ms, a),
        snapped(mono, rate, t, window_ms, b),
    ensures
        a == b,
{
    let target = target_frame(t, rate);
    let (lo, hi) = search_range(target, window_reach(window_ms, rate), mono.len() as int);
    if !(mono.len() == 0 || rate == 0 || forall|f: int| lo <= f < hi ==> !#[trigger] crosses(mono, f)) {
        let f = choose|f: int| #[trigger] is_closest(mono, lo, hi, target, f) && a == crossing_time(f, rate);
        let g = choose|g: int| #[trigger] is_closest(mono, lo, hi, target, g) && b == crossing_time(g, rate);
        assert(crosses(mono, f) && crosses(mono, g));
    }
}

/// Snapping lands on a zero crossing, and never farther away than the window.
pub proof fn law_snap_stays_in_window(mono: Seq<Bits>, lo: int, hi: int, target: int, reach: int, f: int)
    requires
        target >= reach + 1,
        reach >= 0,
        (lo, hi) == search_range(target, reach, mono.len() as int),
        is_closest(mono, lo, hi, target, f),
    ensures
        crosses(mono, f),
        apart(f, target) <= reach,
{
}

/// The point of some frames lies within full scale, the least below the greatest,
/// wherever one of them is a number.
proof fn lemma_point_in_scale(s: Seq<Bits>, a: nat, b: nat, i: int)
    requires
        a <= i < b <= s.len(),
        !is_nan(s[i]),
    ensures
        in_scale(point(s, a, b)),
{
    lemma_full_scale();
    crate::columns::law_extremes_bound(s, a as int, b as int, i);
}

/// A point within full scale, the least below the greatest.
pub open spec fn in_scale(p: (Bits, Bits)) -> bool {
    at_most(MINUS_ONE, p.0) && at_most(p.0, p.1) && at_most(p.1, ONE)
}

/// The envelope of a signal has as many points as were asked for, whatever its
/// length, and every one lies within full scale, the least below the greatest.
pub proof fn law_envelope_in_scale(mono: Seq<Bits>, width: nat)
    requires
        mono.len() > 0,
        forall|i: int| 0 <= i < mono.len() ==> !is_nan(#[trigger] mono[i]),
    ensures
        envelope(mono, width).len() == width,
        forall|i: int| 0 <= i < width ==> in_scale(#[trigger] envelope(mono, width)[i]),
{
    lemma_full_scale();
    assert forall|i: int| 0 <= i < width implies in_scale(#[trigger] envelope(mono, width)[i]) by {
        let (a, b) = bucket(i as nat, width, mono.len());
        if a < mono.len() {
            lemma_point_in_scale(mono, a, b, a as int);
        } else {
            lemma_zero(0);
            lemma_zero_one();
        }
    }
}

/// Where the buckets come out even, each shows the extremes of its own frames.
/// Signals of more than 2^24 frames are left out: single precision cannot tell
/// their frames apart.
pub proof fn law_even_buckets(mono: Seq<Bits>, width: nat, each: nat, i: nat)
    requires
        i < width,
        each >= 1,
        mono.len() == width * each,
        mono.len() <= 0x100_0000,
    ensures
        envelope(mono, width)[i as int] == point(mono, i * each, (i + 1) * each),
{
    let len = mono.len();
    assert(width <= len && each <= len && len > 0) by (nonlinear_arith)
        requires
            len == width * each,
            each >= 1,
            width >= 1,
    ;
    assert((i + 1) * each <= len && i * each < (i + 1) * each) by (nonlinear_arith)
        requires
            len == width * each,
            each >= 1,
            i + 1 <= width,
    ;
    lemma_even_ratio(width, each);
    lemma_even_product(i, each);
    lemma_next_number(i);
    lemma_even_product(i + 1, each);
}

/// A whole number of up to 24 bits is exact.
proof fn lemma_exact(n: nat)
    requires
        n <= 0x100_0000,
    ensures
        nearest(n, 24) == n,
        is_finite(number(n)),
        !negative(number(n)),
        magnitude(number(n)) == n * pow2(149),
{
    lemma2_to64();
    lemma_word(n);
    if n == 0x100_0000 {
        lemma_power(24);
    } else {
        lemma_bit_len(n);
        if bit_len(n) > 24 {
            if bit_len(n) - 1 > 24 {
                lemma_pow2_strictly_increases(24, (bit_len(n) - 1) as nat);
            }
        }
        lemma_nearest_bounds(n, 24);
    }
}

/// What has the magnitude of a whole number is that number.
proof fn lemma_is_number(b: Bits, n: nat)
    requires
        n <= 0x100_0000,
        is_finite(b),
        !negative(b),
        magnitude(b) == n * pow2(149),
    ensures
        b == number(n),
{
    lemma_exact(n);
    lemma_magnitude_order(b, number(n));
}

proof fn lemma_even_ratio(width: nat, each: nat)
    requires
        width >= 1,
        each >= 1,
        width * each <= 0x100_0000,
    ensures
        bucket_size(width * each, width) == number(each),
{
    let len = width * each;
    assert(width <= len && each <= len) by (nonlinear_arith)
        requires
            len == width * each,
            each >= 1,
            width >= 1,
    ;
    lemma_exact(len);
    lemma_exact(width);
    lemma_exact(each);
    let w = pow2(149);
    lemma_pow2_pos(149);
    let num = magnitude(number(len)) * w;
    let den = magnitude(number(width));
    lemma_zero(number(width));
    assert(den > 0) by (nonlinear_arith)
        requires
            den == width * w,
            width >= 1,
            w > 0,
    ;
    assert(num == (each * w) * den) by (nonlinear_arith)
        requires
            num == ((width * each) * w) * w,
            den == width * w,
    ;
    lemma_ratio_pattern(num, den, false);
    lemma_ratio_between(num, den, each * w, 24);
    lemma_nearest_scaled(each, 149, 24);
    let q = fdiv(number(len), number(width));
    lemma_small_whole(each);
    lemma_is_number(q, each);
    lemma_full_scale();
    crate::dsp::lemma_rails();
    assert(each * w >= w) by (nonlinear_arith)
        requires
            each >= 1,
            w > 0,
    ;
}

/// Whole numbers of up to 24 bits are far from infinity.
proof fn lemma_small_whole(n: nat)
    requires
        n <= 0x100_0000,
    ensures
        n * pow2(149) < pow2(277),
{
    lemma2_to64();
    lemma_pow2_adds(24, 149);
    lemma_pow2_strictly_increases(173, 277);
    assert(n * pow2(149) <= 0x100_0000 * pow2(149)) by (nonlinear_arith)
        requires
            n <= 0x100_0000,
    ;
}

proof fn lemma_even_product(i: nat, each: nat)
    requires
        i <= 0x100_0000,
        each <= 0x100_0000,
        i * each <= 0x100_0000,
    ensures
        at_most_index(truncated(fmul(number(i), number(each)))) == i * each,
{
    lemma_exact(i);
    lemma_exact(each);
    let w = pow2(149);
    lemma_pow2_pos(149);
    let num = magnitude(number(i)) * magnitude(number(each));
    let n = i * each;
    assert(num == (n * w) * w) by (nonlinear_arith)
        requires
            num == (i * w) * (each * w),
            n == i * each,
    ;
    lemma_ratio_pattern(num, w, false);
    lemma_ratio_between(num, w, n * w, 24);
    lemma_exact(n);
    lemma_nearest_scaled(n, 149, 24);
    lemma_small_whole(n);
    let p = fmul(number(i), number(each));
    assert(magnitude(p) == n * w);
    lemma_div_by_multiple(n as int, w as int);
}

proof fn lemma_next_number(i: nat)
    requires
        i < 0x100_0000,
    ensures
        fadd(number(i), ONE) == number(i + 1),
{
    lemma_exact(i);
    lemma_exact(i + 1);
    crate::dsp::lemma_rails();
    assert(unsigned(ONE) == ONE);
    let w = pow2(149);
    lemma_pow2_pos(149);
    assert((i + 1) * w == i * w + w) by (nonlinear_arith);
    lemma_sum(number(i), ONE);
    lemma_nearest_scaled(i + 1, 149, 24);
    lemma_small_whole(i + 1);
    assert((i + 1) * w > 0) by (nonlinear_arith)
        requires
            w > 0,
    ;
    lemma_is_number(fadd(number(i), ONE), i + 1);
}

/// The whole number of frames in a time that is `v / c` up to roundings.
proof fn lemma_frames_of(b: Bits, rate: u32, v: int, c: int, e: int)
    requires
        is_finite(b),
        value(b) >= 0,
        rate != 0,
        0 <= v,
        1 <= c <= 1000,
        0 <= e <= 4,
        v * rate <= 0x4000_0000 * one(),
        ({
            let most = e * v + c * 0x100_0000;
            -most <= (value(b) * c - v) * 0x100_0000 <= most
        }),
    ensures
        ({
            let x = v * rate;
            let f = signed_index(fmul(b, number(rate as nat)));
            &&& c * f * one() * 0x10_0000 <= x * 0x10_0001 + c * one()
            &&& x * 0xf_ffff <= c * (f + 1) * one() * 0x10_0000 + c * one()
        }),
{
    lemma_one();
    lemma2_to64();
    lemma2_to64_rest();
    let u = one();
    lemma_pow2_strictly_increases(63, 149);
    assert(u >= 0x8000_0000_0000_0000);
    let d: int = 0x100_0000;
    let n = rate as int;
    let bv = value(b);
    lemma_near_number(rate as nat);
    let w = value(number(rate as nat));
    let x = v * n;
    let nu = n * u;
    assert(nu > 0) by (nonlinear_arith)
        requires
            nu == n * u,
            n >= 1,
            u > 0,
    ;
    assert(nu * (d - 1) <= w * d <= nu * (d + 1));
    let z = bv * w;
    // z is x * u / c
    let up = (v * (d + e) + c * d) * n;
    let down = (v * (d - e) - c * d) * n;
    assert((c * bv) * n * d <= up && down <= (c * bv) * n * d) by (nonlinear_arith)
        requires
            (bv * c - v) * d <= e * v + c * d,
            -(e * v + c * d) <= (bv * c - v) * d,
            up == (v * (d + e) + c * d) * n,
            down == (v * (d - e) - c * d) * n,
            n >= 1,
    ;
    let k = c * bv;
    assert(k >= 0) by (nonlinear_arith)
        requires
            k == c * bv,
            c >= 1,
            bv >= 0,
    ;
    let kn = k * n;
    assert((k * w) * d <= (kn * u) * (d + 1) && (kn * u) * (d - 1) <= (k * w) * d) by (nonlinear_arith)
        requires
            nu * (d - 1) <= w * d <= nu * (d + 1),
            nu == n * u,
            kn == k * n,
            k >= 0,
    ;
    assert(k * w == c * z) by (nonlinear_arith)
        requires
            k == c * bv,
            z == bv * w,
    ;
    assert(up == x * (d + e) + c * d * n && down == x * (d - e) - c * d * n) by (nonlinear_arith)
        requires
            up == (v * (d + e) + c * d) * n,
            down == (v * (d - e) - c * d) * n,
            x == v * n,
    ;
    assert(c * d * n <= 1000 * d * 0xffff_ffff && c * d * n >= 0) by (nonlinear_arith)
        requires
            1 <= c <= 1000,
            1 <= n <= 0xffff_ffff,
            d == 0x100_0000,
    ;
    assert(x >= 0) by (nonlinear_arith)
        requires
            x == v * n,
            v >= 0,
            n >= 1,
    ;
    assert(kn * d <= x * (d + 4) + c * d * n) by (nonlinear_arith)
        requires
            kn * d <= x * (d + e) + c * d * n,
            e <= 4,
            x >= 0,
    ;
    assert(kn * d >= x * (d - 4) - c * d * n) by (nonlinear_arith)
        requires
            kn * d >= x * (d - e) - c * d * n,
            e <= 4,
            x >= 0,
    ;
    let s = c * n;
    assert(c * d * n == s * d) by (nonlinear_arith)
        requires
            s == c * n,
    ;
    assert(kn * d <= x * (d + 4) + s * d && x * (d - 4) - s * d <= kn * d);
    assert(s <= 1000 * 0xffff_ffff && s >= 0) by (nonlinear_arith)
        requires
            s == c * n,
            1 <= c <= 1000,
            1 <= n <= 0xffff_ffff,
    ;
    // the product
    assert(x <= 0x4000_0000 * u);
    assert(kn <= 0x8000_0000 * u) by (nonlinear_arith)
        requires
            kn * d <= x * (d + 4) + s * d,
            x <= 0x4000_0000 * u,
            s <= 1000 * 0xffff_ffff,
            u >= 0x8000_0000_0000_0000,
            d == 0x100_0000,
    ;
    assert(z <= u * pow2(275)) by {
        lemma_pow2_adds(32, 149);
        lemma_pow2_strictly_increases(181, 275);
        assert(c * z >= z) by (nonlinear_arith)
            requires
                c >= 1,
                z == bv * w,
                bv >= 0,
                w >= 0,
        ;
        assert((kn * u) * (d + 1) <= ((0x8000_0000 * u) * u) * (d + 1)) by (nonlinear_arith)
            requires
                0 <= kn <= 0x8000_0000 * u,
                u > 0,
                d == 0x100_0000,
        ;
        assert(z <= (0x1_0000_0000 * u) * u) by (nonlinear_arith)
            requires
                z * d <= ((0x8000_0000 * u) * u) * (d + 1),
                d == 0x100_0000,
                u > 0,
        ;
        assert((0x1_0000_0000 * u) * u <= u * pow2(275)) by (nonlinear_arith)
            requires
                0x1_0000_0000 * u <= pow2(275),
                u > 0,
        ;
    }
    lemma_product_error(b, number(rate as nat));
    let r = fmul(b, number(rate as nat));
    let p = value(r);
    assert(-(z + u * d) <= (p * u - z) * d <= z + u * d);
    let cp = c * p;
    assert((cp * u) * d <= (c * z) * (d + 1) + c * (u * d) && (c * z) * (d - 1) - c * (u * d) <= (cp * u) * d)
        by (nonlinear_arith)
        requires
            -(z + u * d) <= (p * u - z) * d <= z + u * d,
            cp == c * p,
            c >= 1,
    ;
    let cz = c * z;
    assert(cz * d <= (kn * u) * (d + 1) && (kn * u) * (d - 1) <= cz * d);
    // without the unit
    assert((cp * d) * d <= (kn * (d + 1)) * (d + 1) + c * (d * d)) by (nonlinear_arith)
        requires
            (cp * u) * d <= cz * (d + 1) + c * (u * d),
            cz * d <= (kn * u) * (d + 1),
            u > 0,
            d == 0x100_0000,
    ;
    assert((kn * (d - 1)) * (d - 1) - c * (d * d) <= (cp * d) * d) by (nonlinear_arith)
        requires
            cz * (d - 1) - c * (u * d) <= (cp * u) * d,
            (kn * u) * (d - 1) <= cz * d,
            u > 0,
            d == 0x100_0000,
    ;
    assert(s * 4 <= c * 0x4_0000_0000) by (nonlinear_arith)
        requires
            s == c * n,
            n <= 0xffff_ffff,
            c >= 1,
    ;
    assert(c * u >= c * 0x8000_0000_0000_0000) by (nonlinear_arith)
        requires
            u >= 0x8000_0000_0000_0000,
            c >= 1,
    ;
    let cu = c * u;
    assert(cp * 0x10_0000 <= x * 0x10_0001 + cu) by (nonlinear_arith)
        requires
            (cp * d) * d <= (kn * (d + 1)) * (d + 1) + c * (d * d),
            kn * d <= x * (d + 4) + s * d,
            x >= 0,
            s * 4 <= c * 0x4_0000_0000,
            cu >= c * 0x8000_0000_0000_0000,
            d == 0x100_0000,
            c >= 1,
    ;
    assert(x * 0xf_ffff <= cp * 0x10_0000 + cu) by (nonlinear_arith)
        requires
            (kn * (d - 1)) * (d - 1) - c * (d * d) <= (cp * d) * d,
            x * (d - 4) - s * d <= kn * d,
            x >= 0,
            s * 4 <= c * 0x4_0000_0000,
            cu >= c * 0x8000_0000_0000_0000,
            d == 0x100_0000,
            c >= 1,
    ;
    // without the fraction
    let f = magnitude(r) as int / u;
    lemma_fundamental_div_mod(magnitude(r) as int, u);
    lemma_mod_bound(magnitude(r) as int, u);
    lemma_zero(r);
    assert(magnitude(r) == p);
    assert(p <= 0x6000_0000 * u) by (nonlinear_arith)
        requires
            cp * 0x10_0000 <= x * 0x10_0001 + c * u,
            cp == c * p,
            x <= 0x4000_0000 * u,
            c >= 1,
            u > 0,
    ;
    assert(f <= 0x6000_0000) by (nonlinear_arith)
        requires
            u * f <= p,
            p <= 0x6000_0000 * u,
            u > 0,
    ;
    assert(f >= 0) by {
        lemma_div_pos_is_pos(p, u);
    }
    assert(!is_nan(r));
    assert(signed_index(r) == f) by {
        lemma_absolute(r);
        if negative(r) {
            assert(f == 0) by {
                lemma_basic_div(0, u);
            }
        }
    }
    assert(c * f * u <= cp && cp <= c * (f + 1) * u) by (nonlinear_arith)
        requires
            u * f <= p < u * f + u,
            cp == c * p,
            c >= 1,
    ;
}

/// Milliseconds as seconds.
proof fn lemma_thousandth(b: Bits)
    requires
        is_finite(b),
        !negative(b),
        value(b) <= 0x4000_0000 * one(),
    ensures
        is_finite(fdiv(b, THOUSAND)),
        value(fdiv(b, THOUSAND)) >= 0,
        ({
            let most = 3 * value(b) + 1000 * 0x100_0000;
            -most <= (value(fdiv(b, THOUSAND)) * 1000 - value(b)) * 0x100_0000 <= most
        }),
{
    lemma_one();
    lemma2_to64();
    let u = one();
    assert(value(THOUSAND) == 1000 * u && is_finite(THOUSAND)) by {
        assert(unsigned(THOUSAND) == THOUSAND);
        assert(significand(THOUSAND) == 0xfa_0000 && last_digit(THOUSAND) == 135);
        lemma_pow2_adds(14, 135);
        let a = pow2(135);
        assert(0xfa_0000 * a == 1000 * (0x4000 * a)) by (nonlinear_arith);
    }
    let v = value(b);
    assert(v * u <= (1000 * u) * pow2(275)) by {
        lemma_pow2_adds(30, 149);
        lemma_pow2_strictly_increases(179, 275);
        assert(v * u <= (1000 * u) * pow2(275)) by (nonlinear_arith)
            requires
                0 <= v <= 0x4000_0000 * u,
                0x4000_0000 * u <= pow2(275),
                u > 0,
        ;
    }
    lemma_quotient_error(b, THOUSAND);
    let q = value(fdiv(b, THOUSAND));
    let d: int = 0x100_0000;
    assert((q * (1000 * u) - v * u) * d == ((q * 1000 - v) * d) * u && v * u + (1000 * u) * d == (v + 1000 * d) * u)
        by (nonlinear_arith);
    lemma_divided((q * 1000 - v) * d, v + 1000 * d, u);
}

/// Snapping lands where the signal changes its sign: the sample before and the sample
/// there are not both above zero and not both below it, and no frame that is searched
/// and lies nearer to the wanted one is such a place. Where none of them is, the time
/// stays. All frames are searched that lie within the window and inside the file.
pub proof fn law_snap_finds_sign_change(mono: Seq<Bits>, rate: u32, t: Bits, window_ms: Bits, r: Bits)
    requires
        snapped(mono, rate, t, window_ms, r),
        mono.len() > 0,
        rate != 0,
        forall|i: int| 0 <= i < mono.len() ==> !is_nan(#[trigger] mono[i]),
        target_frame(t, rate) + window_reach(window_ms, rate) >= 0,
    ensures
        ({
            let target = target_frame(t, rate);
            let reach = window_reach(window_ms, rate);
            ||| {
                &&& r == t
                &&& forall|g: int|
                    1 <= g < mono.len() - 1 && target - reach <= g < target + reach ==> #[trigger] value(mono[g])
                        != 0 && value(mono[g - 1]) != 0 && (value(mono[g - 1]) < 0) == (value(mono[g]) < 0)
            }
            ||| exists|f: int|
                {
                    &&& 1 <= f < mono.len() - 1
                    &&& target - reach <= f < target + reach
                    &&& !(#[trigger] value(mono[f]) < 0 && value(mono[f - 1]) < 0)
                    &&& !(value(mono[f]) > 0 && value(mono[f - 1]) > 0)
                    &&& r == fdiv(number(f as nat), number(rate as nat))
                    &&& forall|g: int|
                        1 <= g < mono.len() - 1 && target - reach <= g < target + reach && apart(g, target) < apart(
                            f,
                            target,
                        ) ==> #[trigger] value(mono[g]) != 0 && value(mono[g - 1]) != 0 && (value(mono[g - 1]) < 0)
                            == (value(mono[g]) < 0)
                }
        }),
{
    let target = target_frame(t, rate);
    let reach = window_reach(window_ms, rate);
    let (lo, hi) = search_range(target, reach, mono.len() as int);
    lemma_zero(0);
    assert forall|g: int| lo <= g < hi implies #[trigger] crosses(mono, g) == !(value(mono[g]) < 0 && value(
        mono[g - 1],
    ) < 0 || value(mono[g]) > 0 && value(mono[g - 1]) > 0) by {
        assert(!is_nan(mono[g]) && !is_nan(mono[g - 1]));
    }
    if forall|f: int| lo <= f < hi ==> !#[trigger] crosses(mono, f) {
        assert(r == t);
        assert forall|g: int|
            1 <= g < mono.len() - 1 && target - reach <= g < target + reach implies #[trigger] value(mono[g]) != 0
            && value(mono[g - 1]) != 0 && (value(mono[g - 1]) < 0) == (value(mono[g]) < 0) by {
            assert(!crosses(mono, g));
        }
    } else {
        let f = choose|f: int| #[trigger] is_closest(mono, lo, hi, target, f) && r == crossing_time(f, rate);
        assert(crosses(mono, f));
        assert(!(value(mono[f]) < 0 && value(mono[f - 1]) < 0));
        assert forall|g: int|
            1 <= g < mono.len() - 1 && target - reach <= g < target + reach && apart(g, target) < apart(f, target)
            implies #[trigger] value(mono[g]) != 0 && value(mono[g - 1]) != 0 && (value(mono[g - 1]) < 0) == (
        value(mono[g]) < 0) by {
            assert(!crosses(mono, g));
        }
    }
}

/// The frame of a time is its seconds times the rate, without the fraction and up to
/// rounding, and the window reaches as many frames as its milliseconds hold.
pub proof fn law_snap_window(t: Bits, window_ms: Bits, rate: u32)
    requires
        is_finite(t),
        is_finite(window_ms),
        !negative(t),
        !negative(window_ms),
        rate != 0,
        // far from what an index can hold
        value(t) * rate <= 0x4000_0000 * one(),
        value(window_ms) * rate <= 0x4000_0000 * one(),
    ensures
        ({
            let x = value(t) * rate;
            let f = target_frame(t, rate);
            &&& f * one() * 0x10_0000 <= x * 0x10_0001 + one()
            &&& x * 0xf_ffff <= (f + 1) * one() * 0x10_0000 + one()
        }),
        ({
            let x = value(window_ms) * rate;
            let f = window_reach(window_ms, rate);
            &&& 1000 * f * one() * 0x10_0000 <= x * 0x10_0001 + 1000 * one()
            &&& x * 0xf_ffff <= 1000 * (f + 1) * one() * 0x10_0000 + 1000 * one()
        }),
{
    lemma_frames_of(t, rate, value(t), 1, 0);
    let w = fdiv(window_ms, THOUSAND);
    assert(value(window_ms) <= value(window_ms) * rate) by (nonlinear_arith)
        requires
            value(window_ms) >= 0,
            rate >= 1,
    ;
    lemma_thousandth(window_ms);
    lemma_frames_of(w, rate, value(window_ms), 1000, 3);
}

} // verus!
