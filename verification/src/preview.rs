//! Previews: the envelope of a rendering, computed from some of the frames.
//!
//! While a slider moves, the output is drawn from every n-th frame only. The DC
//! blocker, which needs all samples, is left out, and loudness is not measured;
//! the full rendering that follows makes up for both.

use vstd::prelude::*;
use crate::arith::{number, from_whole};
use crate::columns::{lemma_full_scale, law_extremes_bound, lowest};
use crate::dsp::{is_amplitude, db_to_amp};
use crate::envelope::{bucket, bucket_size, bucket_start, frames_per_bucket, preview_frames, stepped, sparse_point, preview_point, cut, to_index, channel_sum, sum_frame, lemma_frame_inside};
use crate::functions::{Function, is_total};
use crate::normalize::NormalizeMode;
use crate::plan::{ZonePlan, least, most, tiles, min_index};
use crate::render::{Chain, channel_count, faded, fade_sample, is_setup, passes, pass, set_up};
use crate::single::{Bits, MILLIONTH, MINUS_ONE, ONE, less, less_than, at_most, is_finite, is_nan, clamp, at_most_index};
use crate::scalar::{fadd, fmul, fdiv, fmax, fabs, truncated};
use crate::scalar::{add_to, multiply, divide_by, larger, absolute, lemma_product_order};
use crate::zones::ZoneMap;

verus! {

// ---- One frame --------------------------------------------------------------

/// The first zone that a frame belongs to, counted from `k`.
pub open spec fn owner(plan: Seq<ZonePlan>, frame: nat, k: nat) -> Option<usize>
    decreases plan.len() - k,
{
    if k >= plan.len() {
        None
    } else if plan[k as int].start <= frame < plan[k as int].end {
        Some(k as usize)
    } else {
        owner(plan, frame, k + 1)
    }
}

/// The zone that a frame belongs to.
pub fn zone_for(plan: &Vec<ZonePlan>, frame: usize) -> (r: Option<usize>)
    ensures
        r == owner(plan@, frame as nat, 0),
        r matches Some(k) ==> k < plan@.len() && plan@[k as int].start <= frame < plan@[k as int].end,
{
    let mut k: usize = 0;
    while k < plan.len()
        invariant
            k <= plan@.len(),
            owner(plan@, frame as nat, 0) == owner(plan@, frame as nat, k as nat),
        decreases plan@.len() - k,
    {
        if plan[k].start <= frame && frame < plan[k].end {
            return Some(k);
        }
        k = k + 1;
    }
    None
}

/// A frame mixed to mono, with the offset of a zone.
pub open spec fn mixed(samples: Seq<Bits>, ch: nat, c: Chain, frame: nat) -> Bits {
    fadd(fdiv(channel_sum(samples, (frame * ch) as int, ch as int), number(ch)), c.dc_offset)
}

/// A frame previews as `v`: nothing outside the zones, else the mono mix sent
/// through the zone's clipper and fades.
pub open spec fn is_previewed<M: Fn(Function, Bits) -> Bits>(
    m: &M,
    samples: Seq<Bits>,
    ch: nat,
    plan: Seq<ZonePlan>,
    chains: Seq<Chain>,
    frame: nat,
    v: Bits,
) -> bool {
    match owner(plan, frame, 0) {
        None => v == 0,
        Some(k) => {
            let c = chains[k as int];
            let p = plan[k as int];
            exists|x: Bits| #[trigger]
                passes(m, c, mixed(samples, ch, c, frame), x) && v == faded(x, p, (frame - p.start) as nat)
        },
    }
}

/// Previews one frame.
pub fn preview_at<M: Fn(Function, Bits) -> Bits>(
    m: &M,
    samples: &Vec<Bits>,
    ch: usize,
    plan: &Vec<ZonePlan>,
    chains: &Vec<Chain>,
    frame: usize,
) -> (v: Bits)
    requires
        is_total(m),
        ch > 0,
        plan@.len() == chains@.len(),
        frame < samples@.len() / (ch as nat),
    ensures
        is_previewed(m, samples@, ch as nat, plan@, chains@, frame as nat, v),
{
    match zone_for(plan, frame) {
        None => 0,
        Some(k) => {
            proof {
                lemma_frame_inside(frame as nat, ch as nat, samples@.len());
                assert(samples.len() <= usize::MAX);
            }
            let c: Chain = chains[k];
            let p: ZonePlan = plan[k];
            let mean: Bits = divide_by(sum_frame(samples, frame * ch, ch), from_whole(ch as u64));
            let x: Bits = pass(m, &c, add_to(mean, c.dc_offset));
            assert(passes(m, c, mixed(samples@, ch as nat, c, frame as nat), x));
            fade_sample(x, &p, frame - p.start)
        },
    }
}

// ---- One bucket -------------------------------------------------------------

/// The frames that a preview looks at in bucket `i`.
pub open spec fn looked_at(i: nat, width: nat, frames: nat, decim: nat) -> Seq<nat> {
    let (a, b) = bucket(i, width, frames);
    stepped(a, b, most(decim, 1))
}

/// `values` are the previewed frames `list`.
pub open spec fn are_previewed<M: Fn(Function, Bits) -> Bits>(
    m: &M,
    samples: Seq<Bits>,
    ch: nat,
    plan: Seq<ZonePlan>,
    chains: Seq<Chain>,
    list: Seq<nat>,
    values: Seq<Bits>,
) -> bool {
    &&& values.len() == list.len()
    &&& forall|j: int|
        0 <= j < list.len() ==> is_previewed(m, samples, ch, plan, chains, list[j], #[trigger] values[j])
}

/// A bucket previews as the point `p`.
pub open spec fn is_point<M: Fn(Function, Bits) -> Bits>(
    m: &M,
    samples: Seq<Bits>,
    ch: nat,
    plan: Seq<ZonePlan>,
    chains: Seq<Chain>,
    list: Seq<nat>,
    p: (Bits, Bits),
) -> bool {
    exists|values: Seq<Bits>| #[trigger]
        are_previewed(m, samples, ch, plan, chains, list, values) && p == sparse_point(values)
}

proof fn lemma_no_owner(plan: Seq<ZonePlan>, frames: nat, frame: nat, k: nat)
    requires
        tiles(plan, frames),
        frame >= frames,
    ensures
        owner(plan, frame, k) is None,
    decreases plan.len() - k,
{
    if k < plan.len() {
        assert(plan[k as int].end <= frames);
        lemma_no_owner(plan, frames, frame, k + 1);
    }
}

fn preview_bucket<M: Fn(Function, Bits) -> Bits>(
    m: &M,
    samples: &Vec<Bits>,
    ch: usize,
    plan: &Vec<ZonePlan>,
    chains: &Vec<Chain>,
    i: usize,
    width: usize,
    decim: usize,
) -> (p: (Bits, Bits))
    requires
        is_total(m),
        ch > 0,
        plan@.len() == chains@.len(),
        tiles(plan@, samples@.len() / (ch as nat)),
    ensures
        is_point(
            m,
            samples@,
            ch as nat,
            plan@,
            chains@,
            looked_at(i as nat, width as nat, samples@.len() / (ch as nat), decim as nat),
            p,
        ),
{
    let frames: usize = samples.len() / ch;
    let ghost list = looked_at(i as nat, width as nat, frames as nat, decim as nat);
    let mut values: Vec<Bits> = Vec::new();
    if bucket_start(i, width, frames) >= frames {
        values.push(0);
        proof {
            let (a, b) = bucket(i as nat, width as nat, frames as nat);
            let step = most(decim as nat, 1);
            assert(b == a + 1);
            assert(stepped(a + step, b, step) =~= Seq::empty());
            assert(list =~= seq![a]);
            lemma_no_owner(plan@, frames as nat, a, 0);
        }
    } else {
        let shown: Vec<usize> = preview_frames(i, width, frames, decim);
        assert(list == shown@.map_values(|f: usize| f as nat));
        let mut j: usize = 0;
        while j < shown.len()
            invariant
                is_total(m),
                ch > 0,
                plan@.len() == chains@.len(),
                frames == samples@.len() / (ch as nat),
                list == shown@.map_values(|f: usize| f as nat),
                forall|k: int| 0 <= k < shown@.len() ==> #[trigger] shown@[k] < frames,
                j <= shown@.len(),
                values@.len() == j,
                forall|k: int|
                    0 <= k < j ==> is_previewed(
                        m,
                        samples@,
                        ch as nat,
                        plan@,
                        chains@,
                        list[k],
                        #[trigger] values@[k],
                    ),
            decreases shown@.len() - j,
        {
            assert(list[j as int] == shown@[j as int]);
            values.push(preview_at(m, samples, ch, plan, chains, shown[j]));
            j = j + 1;
        }
    }
    assert(are_previewed(m, samples@, ch as nat, plan@, chains@, list, values@));
    preview_point(&values)
}

/// The buckets preview as the points `raw`.
pub open spec fn are_points<M: Fn(Function, Bits) -> Bits>(
    m: &M,
    samples: Seq<Bits>,
    ch: nat,
    plan: Seq<ZonePlan>,
    chains: Seq<Chain>,
    decim: nat,
    raw: Seq<(Bits, Bits)>,
) -> bool {
    forall|i: int|
        0 <= i < raw.len() ==> is_point(
            m,
            samples,
            ch,
            plan,
            chains,
            looked_at(i as nat, raw.len(), samples.len() / ch, decim),
            #[trigger] raw[i],
        )
}

fn preview_buckets<M: Fn(Function, Bits) -> Bits>(
    m: &M,
    samples: &Vec<Bits>,
    ch: usize,
    plan: &Vec<ZonePlan>,
    chains: &Vec<Chain>,
    width: usize,
    decim: usize,
) -> (raw: Vec<(Bits, Bits)>)
    requires
        is_total(m),
        ch > 0,
        plan@.len() == chains@.len(),
        tiles(plan@, samples@.len() / (ch as nat)),
    ensures
        raw@.len() == width,
        are_points(m, samples@, ch as nat, plan@, chains@, decim as nat, raw@),
{
    let mut raw: Vec<(Bits, Bits)> = Vec::new();
    let mut i: usize = 0;
    while i < width
        invariant
            is_total(m),
            ch > 0,
            plan@.len() == chains@.len(),
            tiles(plan@, samples@.len() / (ch as nat)),
            i <= width,
            raw@.len() == i,
            forall|k: int|
                0 <= k < i ==> is_point(
                    m,
                    samples@,
                    ch as nat,
                    plan@,
                    chains@,
                    looked_at(k as nat, width as nat, samples@.len() / (ch as nat), decim as nat),
                    #[trigger] raw@[k],
                ),
        decreases width - i,
    {
        raw.push(preview_bucket(m, samples, ch, plan, chains, i, width, decim));
        i = i + 1;
    }
    raw
}

// ---- Normalising ------------------------------------------------------------

/// The buckets that a preview measures for normalisation.
pub open spec fn measured_buckets(size: Bits, width: nat, window: Option<(usize, usize)>) -> (nat, nat) {
    match window {
        None => (0, width),
        Some((a, b)) => {
            let first = least(at_most_index(truncated(fdiv(number(a as nat), size))), width);
            let last = most(
                least(at_most_index(truncated(fdiv(number(b as nat), size))), width),
                first + 1,
            );
            (first, last)
        },
    }
}

/// The largest magnitude in an envelope from point `a` up to point `b`.
pub open spec fn envelope_peak(env: Seq<(Bits, Bits)>, a: int, b: int) -> Bits
    decreases b - a,
{
    if b <= a {
        0
    } else {
        let before = envelope_peak(env, a, b - 1);
        fmax(fmax(before, fabs(env[b - 1].0)), fabs(env[b - 1].1))
    }
}

/// The gain that a preview normalises a peak with. `target` is the level to
/// reach, as an amplitude.
pub open spec fn preview_gain_of(
    env: Seq<(Bits, Bits)>,
    len: nat,
    window: Option<(usize, usize)>,
    target: Bits,
) -> Bits {
    let (a, b) = measured_buckets(bucket_size(len, env.len()), env.len(), window);
    let peak = envelope_peak(env, a as int, least(b, env.len()) as int);
    if less(peak, MILLIONTH) {
        ONE
    } else {
        fdiv(target, peak)
    }
}

/// The gain that a preview normalises with, from the envelope of a file of
/// `len` frames.
pub fn preview_gain(env: &Vec<(Bits, Bits)>, len: usize, window: Option<(usize, usize)>, target: Bits) -> (r:
    Bits)
    ensures
        r == preview_gain_of(env@, len as nat, window, target),
{
    let width: usize = env.len();
    let size: Bits = frames_per_bucket(len, width);
    let (a, b): (usize, usize) = match window {
        None => (0, width),
        Some((f0, f1)) => {
            let first: usize = min_index(to_index(divide_by(from_whole(f0 as u64), size)), width);
            let last: usize = min_index(to_index(divide_by(from_whole(f1 as u64), size)), width);
            if last > first {
                (first, last)
            } else if first < width {
                (first, first + 1)
            } else {
                (first, width)
            }
        },
    };
    let mut peak: Bits = 0;
    let mut k: usize = a;
    while k < b
        invariant
            b <= env@.len(),
            a <= b ==> a <= k <= b,
            a > b ==> k == a,
            peak == envelope_peak(env@, a as int, k as int),
        decreases b - k,
    {
        let p: (Bits, Bits) = env[k];
        peak = larger(larger(peak, absolute(p.0)), absolute(p.1));
        k = k + 1;
    }
    if less_than(peak, MILLIONTH) {
        ONE
    } else {
        divide_by(target, peak)
    }
}

/// An envelope, amplified and cut at full scale.
pub open spec fn amplified(env: Seq<(Bits, Bits)>, gain: Bits) -> Seq<(Bits, Bits)> {
    env.map_values(|p: (Bits, Bits)| cut((fmul(p.0, gain), fmul(p.1, gain))))
}

/// Amplifies an envelope and cuts it at full scale.
pub fn amplify_envelope(env: &Vec<(Bits, Bits)>, gain: Bits) -> (out: Vec<(Bits, Bits)>)
    ensures
        out@ == amplified(env@, gain),
{
    proof {
        lemma_full_scale();
    }
    let mut out: Vec<(Bits, Bits)> = Vec::new();
    let mut i: usize = 0;
    while i < env.len()
        invariant
            at_most(MINUS_ONE, ONE),
            i <= env@.len(),
            out@ =~= amplified(env@, gain).take(i as int),
        decreases env@.len() - i,
    {
        let p: (Bits, Bits) = env[i];
        out.push(
            (
                clamp(multiply(p.0, gain), MINUS_ONE, ONE),
                clamp(multiply(p.1, gain), MINUS_ONE, ONE),
            ),
        );
        i = i + 1;
    }
    out
}

/// A preview normalises with `gain`: only a peak, and only where there is one.
pub open spec fn is_preview_gain<M: Fn(Function, Bits) -> Bits>(
    m: &M,
    normalize: bool,
    mode: NormalizeMode,
    target_db: Bits,
    raw: Seq<(Bits, Bits)>,
    frames: nat,
    window: Option<(usize, usize)>,
    gain: Bits,
) -> bool {
    if normalize && mode is Peak {
        exists|target: Bits| #[trigger]
            is_amplitude(m, target_db, target) && gain == preview_gain_of(raw, frames, window, target)
    } else {
        gain == ONE
    }
}

/// A preview of a file: `r` is its envelope and the gain that it is normalised
/// with.
pub open spec fn is_preview<M: Fn(Function, Bits) -> Bits>(
    m: &M,
    samples: Seq<Bits>,
    channels: u16,
    rate: u32,
    zones: &ZoneMap,
    normalize: bool,
    mode: NormalizeMode,
    target_db: Bits,
    trim: Option<(usize, usize)>,
    width: nat,
    decim: nat,
    r: (Seq<(Bits, Bits)>, Bits),
) -> bool {
    let ch = channel_count(channels);
    let frames = samples.len() / ch;
    if frames == 0 || width == 0 {
        r == (Seq::<(Bits, Bits)>::empty(), ONE)
    } else {
        exists|plan: Seq<ZonePlan>, chains: Seq<Chain>, raw: Seq<(Bits, Bits)>|
            #![trigger are_points(m, samples, ch, plan, chains, decim, raw)]
            {
                &&& is_setup(m, zones, rate, frames, trim, plan, chains)
                &&& raw.len() == width
                &&& are_points(m, samples, ch, plan, chains, decim, raw)
                &&& is_preview_gain(m, normalize, mode, target_db, raw, frames, trim, r.1)
                &&& r.0 == amplified(raw, r.1)
            }
    }
}

/// Previews a file in `width` points from every `decim`-th frame: the envelope
/// of the output and the gain that it is normalised with.
pub fn render_envelope_decimated<M: Fn(Function, Bits) -> Bits>(
    m: &M,
    samples: &Vec<Bits>,
    channels: u16,
    sample_rate: u32,
    zones: &ZoneMap,
    normalize: bool,
    normalize_mode: NormalizeMode,
    normalize_target_db: Bits,
    trim_window: Option<(usize, usize)>,
    width: usize,
    decim: usize,
) -> (r: (Vec<(Bits, Bits)>, Bits))
    requires
        is_total(m),
        zones.wf(),
    ensures
        is_preview(
            m,
            samples@,
            channels,
            sample_rate,
            zones,
            normalize,
            normalize_mode,
            normalize_target_db,
            trim_window,
            width as nat,
            decim as nat,
            (r.0@, r.1),
        ),
{
    let ch: usize = if channels == 0 {
        1
    } else {
        channels as usize
    };
    let frames: usize = samples.len() / ch;
    if frames == 0 || width == 0 {
        let none: Vec<(Bits, Bits)> = Vec::new();
        assert(none@ =~= Seq::<(Bits, Bits)>::empty());
        return (none, ONE);
    }
    let (plan, chains): (Vec<ZonePlan>, Vec<Chain>) = set_up(
        m,
        zones,
        sample_rate,
        frames,
        trim_window,
    );
    let raw: Vec<(Bits, Bits)> = preview_buckets(m, samples, ch, &plan, &chains, width, decim);
    let gain: Bits = if normalize && normalize_mode == NormalizeMode::Peak {
        let target: Bits = db_to_amp(m, normalize_target_db);
        preview_gain(&raw, frames, trim_window, target)
    } else {
        ONE
    };
    let env: Vec<(Bits, Bits)> = amplify_envelope(&raw, gain);
    assert(are_points(m, samples@, channel_count(channels), plan@, chains@, decim as nat, raw@));
    (env, gain)
}

// ---- Laws -------------------------------------------------------------------

/// The point of a bucket is in order, or one value twice.
proof fn lemma_point_in_order(values: Seq<Bits>)
    requires
        values.len() > 0,
    ensures
        sparse_point(values).0 == sparse_point(values).1 || at_most(
            sparse_point(values).0,
            sparse_point(values).1,
        ),
{
    let n = values.len() as int;
    if is_finite(lowest(values, 0, n)) {
        lemma_lowest_is_there(values, n);
        let i = choose|i: int| 0 <= i < n && values[i] == lowest(values, 0, n);
        law_extremes_bound(values, 0, n, i);
    }
}

proof fn lemma_lowest_is_there(s: Seq<Bits>, n: int)
    requires
        0 <= n <= s.len(),
        is_finite(lowest(s, 0, n)),
    ensures
        exists|i: int| 0 <= i < n && s[i] == lowest(s, 0, n),
    decreases n,
{
    if n > 0 && !less(s[n - 1], lowest(s, 0, n - 1)) {
        lemma_lowest_is_there(s, n - 1);
    }
}

/// Every point of a preview is in order and within full scale, wherever it holds
/// numbers and the gain is not negative.
pub proof fn law_preview_in_scale<M: Fn(Function, Bits) -> Bits>(
    m: &M,
    samples: Seq<Bits>,
    channels: u16,
    rate: u32,
    zones: &ZoneMap,
    normalize: bool,
    mode: NormalizeMode,
    target_db: Bits,
    trim: Option<(usize, usize)>,
    width: nat,
    decim: nat,
    r: (Seq<(Bits, Bits)>, Bits),
    i: int,
)
    requires
        is_preview(m, samples, channels, rate, zones, normalize, mode, target_db, trim, width, decim, r),
        0 <= i < r.0.len(),
        at_most(0, r.1),
        !is_nan(r.0[i].0),
        !is_nan(r.0[i].1),
    ensures
        at_most(MINUS_ONE, r.0[i].0),
        at_most(r.0[i].0, r.0[i].1),
        at_most(r.0[i].1, ONE),
{
    let ch = channel_count(channels);
    let frames = samples.len() / ch;
    let (plan, chains, raw) = choose|plan: Seq<ZonePlan>, chains: Seq<Chain>, raw: Seq<(Bits, Bits)>|
        #![trigger are_points(m, samples, ch, plan, chains, decim, raw)]
        {
            &&& is_setup(m, zones, rate, frames, trim, plan, chains)
            &&& raw.len() == width
            &&& are_points(m, samples, ch, plan, chains, decim, raw)
            &&& is_preview_gain(m, normalize, mode, target_db, raw, frames, trim, r.1)
            &&& r.0 == amplified(raw, r.1)
        };
    let p = raw[i];
    let list = looked_at(i as nat, raw.len(), frames, decim);
    assert(is_point(m, samples, ch, plan, chains, list, p));
    let values = choose|values: Seq<Bits>| #[trigger]
        are_previewed(m, samples, ch, plan, chains, list, values) && p == sparse_point(values);
    assert(values.len() > 0);
    lemma_point_in_order(values);
    let (lo, hi) = (fmul(p.0, r.1), fmul(p.1, r.1));
    lemma_full_scale();
    assert(r.0[i] == cut((lo, hi)));
    if p.0 != p.1 {
        lemma_product_order(p.0, p.1, r.1);
    }
}

} // verus!
