//! The render plan: which frames belong to which zone, and where fades lie.
//!
//! Rendering processes each zone's frames with that zone's parameters. The
//! plan fixes the frame range of every zone, the length of its fades, and the
//! frames at which they start and end once the file is trimmed.

use vstd::prelude::*;
use vstd::arithmetic::div_mod::*;
use crate::arith::{plus, sum, abs, lemma_sum, lemma_pattern_exact, lemma_infinity};
use crate::rounding::lemma_nearest_monotone;
use crate::single::{Bits, INFINITY, floor_product, ceil_product, floor_times, ceil_times, divide, quotient, magnitude, value, negative, at_most, is_at_most, is_nan, unsigned};
use crate::single::{lemma_floor_product_monotone, lemma_magnitude_order, lemma_zero};
use crate::zones::{ZoneMap, ZoneParams, SMALL};

verus! {

/// The frames of one zone and its fades. Fade positions count from the start
/// of the zone.
#[derive(Clone, Copy, PartialEq, Eq, Debug, Structural)]
pub struct ZonePlan {
    pub start: usize,
    pub end: usize,
    pub fade_in_frames: usize,
    pub fade_out_frames: usize,
    /// Where the fade-in begins: the later of the zone's and the trim's start.
    pub fade_in_anchor: usize,
    /// Where the fade-out reaches silence: the earlier of the zone's and the
    /// trim's end.
    pub fade_out_end: usize,
}

pub open spec fn least(a: nat, b: nat) -> nat {
    if a < b {
        a
    } else {
        b
    }
}

pub open spec fn most(a: nat, b: nat) -> nat {
    if a < b {
        b
    } else {
        a
    }
}

pub open spec fn minus(a: nat, b: nat) -> nat {
    if a < b {
        0
    } else {
        (a - b) as nat
    }
}

/// The frame of a time, in a file of `frames` frames.
pub open spec fn frame_at(t: Bits, rate: u32, frames: nat) -> nat {
    least(floor_product(t, rate as nat), frames)
}

/// The frame at which zone `i` starts.
pub open spec fn zone_start(zones: &ZoneMap, i: int, rate: u32, frames: nat) -> nat {
    frame_at(zones.start_of(i), rate, frames)
}

/// The frame at which zone `i` ends. The last zone ends with the file.
pub open spec fn zone_end(zones: &ZoneMap, i: int, rate: u32, frames: nat) -> nat {
    if i < zones.splits@.len() {
        frame_at(zones.splits@[i], rate, frames)
    } else {
        frames
    }
}

/// The plan of a zone that has the frames from `start` on up to `end`. A fade is
/// at most as long as the zone.
pub open spec fn plan_for(start: nat, end: nat, z: ZoneParams, rate: u32, trim: (nat, nat)) -> ZonePlan {
    let len = minus(end, start);
    ZonePlan {
        start: start as usize,
        end: end as usize,
        fade_in_frames: least(floor_product(z.fade_in_secs, rate as nat), len) as usize,
        fade_out_frames: least(floor_product(z.fade_out_secs, rate as nat), len) as usize,
        fade_in_anchor: minus(least(most(start, trim.0), end), start) as usize,
        fade_out_end: minus(most(least(end, trim.1), start), start) as usize,
    }
}

/// The trim window in force: the given one, or the whole file.
pub open spec fn window_or_all(trim: Option<(usize, usize)>, frames: nat) -> (nat, nat) {
    match trim {
        None => (0, frames),
        Some((a, b)) => (a as nat, b as nat),
    }
}

/// The plan of every zone.
pub open spec fn planned(
    plan: Seq<ZonePlan>,
    zones: &ZoneMap,
    rate: u32,
    frames: nat,
    trim: Option<(usize, usize)>,
) -> bool {
    &&& plan.len() == zones.zones@.len()
    &&& forall|i: int|
        0 <= i < plan.len() ==> #[trigger] plan[i] == plan_for(
            zone_start(zones, i, rate, frames),
            zone_end(zones, i, rate, frames),
            zones.zones@[i],
            rate,
            window_or_all(trim, frames),
        )
}

/// The smaller of two indices.
pub fn min_index(a: usize, b: usize) -> (r: usize)
    ensures
        r == least(a as nat, b as nat),
{
    if a < b {
        a
    } else {
        b
    }
}

/// The larger of two indices.
pub fn max_index(a: usize, b: usize) -> (r: usize)
    ensures
        r == most(a as nat, b as nat),
{
    if a < b {
        b
    } else {
        a
    }
}

/// The plan of the zone that has the frames from `start` on up to `end`.
pub fn plan_zone(
    start: usize,
    end: usize,
    z: &ZoneParams,
    rate: u32,
    frames: usize,
    trim: Option<(usize, usize)>,
) -> (p: ZonePlan)
    ensures
        p == plan_for(start as nat, end as nat, *z, rate, window_or_all(trim, frames as nat)),
{
    let (trim_s, trim_e): (usize, usize) = match trim {
        None => (0, frames),
        Some(w) => w,
    };
    let len: usize = end.saturating_sub(start);
    let fi: usize = floor_times(z.fade_in_secs, rate as u64);
    let fo: usize = floor_times(z.fade_out_secs, rate as u64);
    let eff_start: usize = min_index(max_index(start, trim_s), end);
    let eff_end: usize = max_index(min_index(end, trim_e), start);
    ZonePlan {
        start,
        end,
        fade_in_frames: min_index(fi, len),
        fade_out_frames: min_index(fo, len),
        fade_in_anchor: eff_start.saturating_sub(start),
        fade_out_end: eff_end.saturating_sub(start),
    }
}

/// The duration of a file, in seconds.
pub open spec fn is_duration(d: Bits, frames: nat, rate: u32) -> bool {
    d < INFINITY && magnitude(d) == quotient(
        frames,
        if rate == 0 {
            1
        } else {
            rate as nat
        },
    )
}

/// The duration of `frames` frames at a sample rate.
pub fn duration_of(frames: usize, rate: u32) -> (d: Bits)
    ensures
        is_duration(d, frames as nat, rate),
{
    divide(
        frames as u64,
        if rate == 0 {
            1
        } else {
            rate as u64
        },
    )
}

/// Plans the rendering of a file of `frames` frames.
pub fn render_plan(
    zones: &ZoneMap,
    rate: u32,
    frames: usize,
    trim_window: Option<(usize, usize)>,
) -> (plan: Vec<ZonePlan>)
    requires
        zones.wf(),
    ensures
        planned(plan@, zones, rate, frames as nat, trim_window),
        tiles(plan@, frames as nat),
{
    let mut plan: Vec<ZonePlan> = Vec::new();
    let mut start: usize = 0;
    let mut i: usize = 0;
    proof {
        lemma_zero_time(rate as nat);
    }
    while i < zones.zones.len()
        invariant
            zones.wf(),
            i <= zones.zones@.len(),
            plan@.len() == i,
            i < zones.zones@.len() ==> start == zone_start(zones, i as int, rate, frames as nat),
            forall|k: int|
                0 <= k < i ==> #[trigger] plan@[k] == plan_for(
                    zone_start(zones, k, rate, frames as nat),
                    zone_end(zones, k, rate, frames as nat),
                    zones.zones@[k],
                    rate,
                    window_or_all(trim_window, frames as nat),
                ),
        decreases zones.zones@.len() - i,
    {
        let end: usize = if i < zones.splits.len() {
            min_index(floor_times(zones.splits[i], rate as u64), frames)
        } else {
            frames
        };
        plan.push(plan_zone(start, end, &zones.zones[i], rate, frames, trim_window));
        start = end;
        i = i + 1;
    }
    proof {
        assert(planned(plan@, zones, rate, frames as nat, trim_window));
        law_plan_tiles(plan@, zones, rate, frames as nat, trim_window);
    }
    plan
}

/// The zones cover the file from its first frame to its last without gap or
/// overlap.
pub open spec fn tiles(plan: Seq<ZonePlan>, frames: nat) -> bool {
    &&& plan.len() > 0
    &&& plan[0].start == 0
    &&& plan.last().end == frames
    &&& forall|i: int| 0 <= i < plan.len() ==> (#[trigger] plan[i]).start <= plan[i].end <= frames
    &&& forall|i: int|
        #![trigger plan[i]]
        0 <= i < plan.len() - 1 ==> plan[i].end == plan[i + 1].start
}

/// Sorted splits give zones that tile the file: every frame belongs to exactly
/// one zone.
pub proof fn law_plan_tiles(
    plan: Seq<ZonePlan>,
    zones: &ZoneMap,
    rate: u32,
    frames: nat,
    trim: Option<(usize, usize)>,
)
    requires
        zones.wf(),
        frames <= usize::MAX,
        planned(plan, zones, rate, frames, trim),
    ensures
        tiles(plan, frames),
{
    let n = zones.splits@.len() as int;
    assert(frame_at(0, rate, frames) == 0) by {
        lemma_zero_time(rate as nat);
    }
    assert forall|i: int| 0 <= i < plan.len() implies (#[trigger] plan[i]).start <= plan[i].end <= frames by {
        if 0 < i < n {
            assert(zones.splits@[i - 1] <= zones.splits@[i]);
            lemma_floor_product_monotone(zones.splits@[i - 1], zones.splits@[i], rate as nat);
        }
    }
    assert forall|i: int|
        #![trigger plan[i]]
        0 <= i < plan.len() - 1 implies plan[i].end == plan[i + 1].start by {
        assert(plan[i + 1].start == zone_start(zones, i + 1, rate, frames));
    }
}

/// Time zero is frame zero.
proof fn lemma_zero_time(n: nat)
    ensures
        floor_product(0, n) == 0,
{
    lemma_zero(0);
    let w = crate::single::whole(n);
    assert(0 * w == 0);
    crate::rounding::lemma_nearest_bounds(0, 24);
    assert(crate::rounding::bit_len(0) == 0);
    vstd::arithmetic::power2::lemma_pow2_pos(149);
    lemma_basic_div(0, vstd::arithmetic::power2::pow2(149) as int);
}

/// Fades stay inside their zone: each is at most as long as the zone, and both
/// anchors lie in it.
pub proof fn law_fades_inside_zone(start: nat, end: nat, z: ZoneParams, rate: u32, trim: (nat, nat))
    requires
        start <= end <= usize::MAX,
    ensures
        ({
            let p = plan_for(start, end, z, rate, trim);
            &&& p.fade_in_frames <= p.end - p.start
            &&& p.fade_out_frames <= p.end - p.start
            &&& p.fade_in_anchor <= p.end - p.start
            &&& p.fade_out_end <= p.end - p.start
        }),
{
}

// ---- Fades ------------------------------------------------------------------

/// The gains that fades apply to a frame, as fractions. `None` is full level.
#[derive(Clone, Copy, PartialEq, Eq, Debug)]
pub struct FadeGain {
    pub rise: Option<(usize, usize)>,
    pub fall: Option<(usize, usize)>,
}

/// The fade of frame `f` of a zone. Frames before the anchor and from the
/// fade-out's end on are cut off by the trim and keep full level.
pub open spec fn fade_of(p: ZonePlan, f: nat) -> FadeGain {
    FadeGain {
        rise: if p.fade_in_frames > 0 && f >= p.fade_in_anchor && f - p.fade_in_anchor < p.fade_in_frames {
            Some(((f - p.fade_in_anchor) as usize, p.fade_in_frames))
        } else {
            None
        },
        fall: if p.fade_out_frames > 0 && f >= minus(p.fade_out_end as nat, p.fade_out_frames as nat) && f
            < p.fade_out_end {
            Some(((p.fade_out_end - f) as usize, p.fade_out_frames))
        } else {
            None
        },
    }
}

/// The gains that fades apply to frame `f` of a zone.
pub fn fade_at(p: &ZonePlan, f: usize) -> (g: FadeGain)
    ensures
        g == fade_of(*p, f as nat),
{
    let rise: Option<(usize, usize)> = if p.fade_in_frames > 0 && f >= p.fade_in_anchor && f
        - p.fade_in_anchor < p.fade_in_frames {
        Some((f - p.fade_in_anchor, p.fade_in_frames))
    } else {
        None
    };
    let fall_start: usize = p.fade_out_end.saturating_sub(p.fade_out_frames);
    let fall: Option<(usize, usize)> = if p.fade_out_frames > 0 && f >= fall_start && f < p.fade_out_end {
        Some((p.fade_out_end - f, p.fade_out_frames))
    } else {
        None
    };
    FadeGain { rise, fall }
}

/// Fades only ever lower the level: the fractions are at most one, the fade-in
/// starts from silence, and the fade-out ends one step above it.
pub proof fn law_fade_gains(p: ZonePlan, f: nat)
    requires
        f <= usize::MAX,
    ensures
        ({
            let g = fade_of(p, f);
            &&& g.rise matches Some((n, d)) ==> n < d
            &&& g.fall matches Some((n, d)) ==> 1 <= n <= d
            &&& p.fade_in_frames > 0 && f == p.fade_in_anchor ==> g.rise == Some((0usize, p.fade_in_frames))
            &&& p.fade_out_frames > 0 && f + 1 == p.fade_out_end ==> g.fall == Some(
                (1usize, p.fade_out_frames),
            )
        }),
{
}

/// The level rises along a fade-in and falls along a fade-out.
pub proof fn law_fade_monotone(p: ZonePlan, f: nat)
    requires
        f < usize::MAX,
    ensures
        fade_of(p, f).rise matches Some((a, _)) ==> (fade_of(p, f + 1).rise matches Some((b, _)) ==> a < b),
        fade_of(p, f).fall matches Some((a, _)) ==> (fade_of(p, f + 1).fall matches Some((b, _)) ==> b < a),
{
}

// ---- Trim -------------------------------------------------------------------

/// A tenth of a millisecond, negated.
pub const MINUS_SMALL: Bits = 0xb8d1_b717;

/// The end of a file, less a tenth of a millisecond: `duration - 1e-4`.
pub open spec fn near_end(duration: Bits) -> Bits {
    sum(duration, MINUS_SMALL)
}

/// Does the trim keep (almost) the whole file?
pub open spec fn keeps_all(ts: Bits, te: Bits, duration: Bits) -> bool {
    at_most(ts, SMALL) && at_most(near_end(duration), te)
}

/// The frames of a trim window, or nothing where it keeps the whole file or no
/// frame at all.
pub open spec fn trim_frames(ts: Bits, te: Bits, duration: Bits, rate: u32, frames: nat) -> Option<
    (usize, usize),
> {
    let f0 = frame_at(ts, rate, frames);
    let f1 = most(least(ceil_product(te, rate as nat), frames), f0);
    if keeps_all(ts, te, duration) || f1 <= f0 {
        None
    } else {
        Some((f0 as usize, f1 as usize))
    }
}

pub open spec fn or_else(t: Option<Bits>, otherwise: Bits) -> Bits {
    match t {
        None => otherwise,
        Some(b) => b,
    }
}

/// The window of frames that a trim keeps.
pub fn compute_trim_window(
    sample_rate: u32,
    total_frames: usize,
    duration_secs: Bits,
    trim_start: Option<Bits>,
    trim_end: Option<Bits>,
) -> (w: Option<(usize, usize)>)
    requires
        duration_secs < INFINITY,
    ensures
        w == trim_frames(
            or_else(trim_start, 0),
            or_else(trim_end, duration_secs),
            duration_secs,
            sample_rate,
            total_frames as nat,
        ),
        w matches Some((a, b)) ==> a < b <= total_frames,
{
    let ts: Bits = match trim_start {
        None => 0,
        Some(t) => t,
    };
    let te: Bits = match trim_end {
        None => duration_secs,
        Some(t) => t,
    };
    let edge: Bits = plus(duration_secs, MINUS_SMALL);
    if is_at_most(ts, SMALL) && is_at_most(edge, te) {
        return None;
    }
    let f0: usize = min_index(floor_times(ts, sample_rate as u64), total_frames);
    let f1: usize = max_index(min_index(ceil_times(te, sample_rate as u64), total_frames), f0);
    if f1 > f0 {
        Some((f0, f1))
    } else {
        None
    }
}

/// A trim that is not set keeps the whole file.
pub proof fn law_no_trim_keeps_all(duration: Bits, rate: u32, frames: nat)
    requires
        duration < INFINITY,
    ensures
        trim_frames(0, duration, duration, rate, frames) is None,
{
    lemma_zero(0);
    lemma_zero(SMALL);
    assert(unsigned(SMALL) == SMALL);
    lemma_sum(duration, MINUS_SMALL);
    let edge = near_end(duration);
    let x = value(duration) + value(MINUS_SMALL);
    lemma_pattern_exact(duration);
    lemma_magnitude_order(duration, INFINITY);
    lemma_infinity();
    assert(unsigned(INFINITY) == INFINITY);
    if x >= 0 {
        lemma_nearest_monotone(abs(x), magnitude(duration), 24);
        lemma_zero(edge);
        assert(value(edge) <= value(duration));
    } else {
        assert(negative(edge));
    }
}

// ---- Windows over samples ---------------------------------------------------

/// The samples that normalisation measures: those of the window, or all of
/// them where the window is empty.
pub open spec fn measured(total: nat, channels: nat, window: Option<(usize, usize)>) -> (nat, nat) {
    match window {
        None => (0, total),
        Some((a, b)) => {
            let f0 = least(a as nat, total / channels);
            let f1 = most(least(b as nat, total / channels), f0);
            if f1 > f0 {
                (f0 * channels, f1 * channels)
            } else {
                (0, total)
            }
        },
    }
}

/// The range of samples that normalisation measures.
pub fn measure_window(total: usize, channels: u16, window: Option<(usize, usize)>) -> (r: (usize, usize))
    ensures
        (r.0 as nat, r.1 as nat) == measured(total as nat, crate::audio_io::at_least_one(channels), window),
        r.0 <= r.1 <= total,
{
    let ch: usize = if channels == 0 {
        1
    } else {
        channels as usize
    };
    let frames: usize = total / ch;
    match window {
        None => (0, total),
        Some((a, b)) => {
            let f0: usize = min_index(a, frames);
            let f1: usize = max_index(min_index(b, frames), f0);
            if f1 > f0 {
                proof {
                    lemma_fundamental_div_mod(total as int, ch as int);
                    lemma_mod_bound(total as int, ch as int);
                    assert(f0 * ch <= f1 * ch && f1 * ch <= frames * ch && frames * ch == ch * frames)
                        by (nonlinear_arith)
                        requires
                            f0 <= f1 <= frames,
                    ;
                }
                (f0 * ch, f1 * ch)
            } else {
                (0, total)
            }
        },
    }
}

/// The peak of a stretch of samples: the largest magnitude, as a pattern
/// without sign. What is not a number is passed over.
pub open spec fn is_peak(s: Seq<Bits>, lo: int, hi: int, peak: Bits) -> bool {
    &&& peak < 0x8000_0000
    &&& !is_nan(peak)
    &&& forall|i: int|
        lo <= i < hi && !is_nan(#[trigger] s[i]) ==> magnitude(s[i]) <= magnitude(peak)
    &&& peak == 0 || exists|i: int|
        lo <= i < hi && !is_nan(#[trigger] s[i]) && magnitude(s[i]) == magnitude(peak)
}

/// The peak level of the samples from `lo` to `hi`.
pub fn peak_of(samples: &[Bits], lo: usize, hi: usize) -> (peak: Bits)
    requires
        lo <= hi <= samples@.len(),
    ensures
        is_peak(samples@, lo as int, hi as int, peak),
{
    let mut peak: Bits = 0;
    let mut i: usize = lo;
    while i < hi
        invariant
            lo <= i <= hi <= samples@.len(),
            is_peak(samples@, lo as int, i as int, peak),
        decreases hi - i,
    {
        let u: Bits = samples[i] % 0x8000_0000;
        let ghost before = peak;
        proof {
            lemma_magnitude_order(samples@[i as int], peak);
            lemma_magnitude_order(samples@[i as int], u);
            assert(unsigned(peak) == peak);
            assert(unsigned(u) == u);
        }
        if u <= INFINITY && u > peak {
            peak = u;
            proof {
                assert forall|k: int| lo <= k < i + 1 && !is_nan(#[trigger] samples@[k]) implies magnitude(
                    samples@[k],
                ) <= magnitude(peak) by {
                    if k < i {
                        assert(magnitude(samples@[k]) <= magnitude(before));
                    }
                }
                assert(!is_nan(samples@[i as int]));
            }
        }
        i = i + 1;
    }
    peak
}

} // verus!
