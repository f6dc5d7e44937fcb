//! How much detail the waveform is drawn with, and what goes into one column.
//!
//! Zoomed out, every pixel column shows the extremes of the samples that fall
//! into it: the processed sound as a body, and beyond it a cap where clipping
//! took something away. Fades and trimmed parts have no caps, since there the
//! level was lowered on purpose.

use vstd::prelude::*;
use crate::arith::{number, from_whole};
use crate::plan::{least, most, minus, min_index, max_index};
use crate::single::{HALF, MINUS_ONE};
use crate::single::{Bits, INFINITY, ONE, is_nan, is_finite, less, less_than, at_most, is_at_most, clamped, clamp, floor_product, floor_times, at_most_index};
use crate::scalar::{fadd, fsub, fmul, fdiv, fmax, fmin, fabs, truncated};
use crate::scalar::{add_to, subtract, multiply, divide_by, larger, smaller, absolute, truncate};
use crate::waveform::Waveform;
use crate::zones::{ZoneMap, ZoneParams};

verus! {

pub const MINUS_INFINITY: Bits = 0xff80_0000;

/// The least difference that counts as clipped.
pub const CLIPPED: Bits = 0x3951_b717;
/// The least difference between envelopes that counts as processing.
pub const DIFFERENT: Bits = 0x3727_c5ac;
/// Height that a cap has at least, in pixels.
pub const CAP_LEAST: Bits = 0x4000_0000;

/// Below half a sample per pixel, samples are drawn as dots; below six, as a
/// line.
pub const DOTS_BELOW: Bits = 0x3f00_0000;
pub const LINE_BELOW: Bits = 0x40c0_0000;
/// Below three values per pixel, an envelope is not drawn from what is there.
pub const DENSE_FROM: Bits = 0x4040_0000;

// ---- Detail -----------------------------------------------------------------

/// How the waveform is drawn.
#[derive(Clone, Copy, PartialEq, Eq, Debug, Structural)]
pub enum Detail {
    /// Single samples with a curve through them.
    Dots,
    /// A line from sample to sample.
    Line,
    /// Columns of extremes.
    Columns,
}

/// How an envelope is drawn.
#[derive(Clone, Copy, PartialEq, Eq, Debug, Structural)]
pub enum Trace {
    /// From the samples, joined by lines.
    Line,
    /// From the samples, one column per pixel.
    PerPixel,
    /// From the stored envelope.
    Stored,
}

/// The number of pixel columns of a waveform of that width.
pub open spec fn pixel_count(w: Bits) -> nat {
    at_most_index(truncated(fmax(w, ONE)))
}

/// The number of pixel columns of a waveform of that width.
pub fn pixels(w: Bits) -> (n: usize)
    ensures
        n == pixel_count(w),
{
    let n: u64 = truncate(larger(w, ONE));
    if n > usize::MAX as u64 {
        usize::MAX
    } else {
        n as usize
    }
}

impl Waveform {
    /// Samples in the visible window.
    pub open spec fn visible_samples(self) -> nat {
        floor_product(self.visible(), self.sample_rate as nat)
    }

    /// Samples per pixel in a waveform of that width.
    pub open spec fn density(self, w: Bits) -> Bits {
        fdiv(number(self.visible_samples()), number(pixel_count(w)))
    }

    pub open spec fn detail(self, w: Bits, has_input: bool, has_output: bool) -> Detail {
        if less(self.density(w), DOTS_BELOW) && has_output && pixel_count(w) > 0 {
            Detail::Dots
        } else if less(self.density(w), LINE_BELOW) && has_input {
            Detail::Line
        } else {
            Detail::Columns
        }
    }

    /// How an envelope of `stored` points is drawn in a waveform of that width.
    pub open spec fn source(self, w: Bits, stored: usize, has_samples: bool) -> Trace {
        let shown = self.visible_points(stored);
        if !has_samples {
            Trace::Stored
        } else if less(self.density(w), DENSE_FROM) {
            Trace::Line
        } else if less(fdiv(number((shown.1 - shown.0) as nat), number(pixel_count(w))), DENSE_FROM) {
            Trace::PerPixel
        } else {
            Trace::Stored
        }
    }

    /// The frames in the visible window of a file of `len` frames, if any.
    pub open spec fn shown_frames(self, len: nat) -> Option<(nat, nat)> {
        let start = floor_product(self.scroll, self.sample_rate as nat);
        let end = least(
            floor_product(fadd(self.scroll, self.visible()), self.sample_rate as nat),
            len,
        );
        if end <= start {
            None
        } else {
            Some((start, end))
        }
    }

    fn samples_per_pixel(&self, w: Bits) -> (r: Bits)
        ensures
            r == self.density(w),
    {
        let samples: usize = floor_times(self.visible_duration(), self.sample_rate as u64);
        divide_by(from_whole(samples as u64), from_whole(pixels(w) as u64))
    }

    /// How the waveform is drawn in that width.
    pub fn detail_at(&self, w: Bits, has_input: bool, has_output: bool) -> (d: Detail)
        ensures
            d == self.detail(w, has_input, has_output),
    {
        let density: Bits = self.samples_per_pixel(w);
        if less_than(density, DOTS_BELOW) && has_output && pixels(w) > 0 {
            Detail::Dots
        } else if less_than(density, LINE_BELOW) && has_input {
            Detail::Line
        } else {
            Detail::Columns
        }
    }

    /// How an envelope of `stored` points is drawn in that width.
    pub fn envelope_source(&self, w: Bits, stored: usize, has_samples: bool) -> (s: Trace)
        ensures
            s == self.source(w, stored, has_samples),
    {
        if !has_samples {
            return Trace::Stored;
        }
        if less_than(self.samples_per_pixel(w), DENSE_FROM) {
            return Trace::Line;
        }
        let (a, b): (usize, usize) = self.visible_envelope_slice(stored);
        let points: Bits = divide_by(from_whole((b - a) as u64), from_whole(pixels(w) as u64));
        if less_than(points, DENSE_FROM) {
            Trace::PerPixel
        } else {
            Trace::Stored
        }
    }

    /// The frames in the visible window of a file of `len` frames, if any.
    pub fn visible_frames(&self, len: usize) -> (r: Option<(usize, usize)>)
        ensures
            match r {
                None => self.shown_frames(len as nat) is None,
                Some((a, b)) => self.shown_frames(len as nat) == Some((a as nat, b as nat)) && a < b <= len,
            },
    {
        let start: usize = floor_times(self.scroll, self.sample_rate as u64);
        let right: Bits = add_to(self.scroll, self.visible_duration());
        let cut: usize = floor_times(right, self.sample_rate as u64);
        let end: usize = if cut < len {
            cut
        } else {
            len
        };
        if end <= start {
            None
        } else {
            Some((start, end))
        }
    }

    /// The stretch of the waveform between two times, cut at its edges; none
    /// where nothing of it is visible.
    pub open spec fn stretch(self, from: Bits, to: Bits, x: Bits, w: Bits) -> Option<(Bits, Bits)> {
        let a = fadd(x, fmin(fmax(self.place(from, w), 0), w));
        let b = fadd(x, fmin(fmax(self.place(to, w), 0), w));
        if at_most(b, a) {
            None
        } else {
            Some((a, b))
        }
    }

    /// The stretch of the waveform between two times, cut at its edges.
    pub fn zone_stretch(&self, from: Bits, to: Bits, x: Bits, w: Bits) -> (r: Option<(Bits, Bits)>)
        ensures
            r == self.stretch(from, to, x, w),
    {
        let a: Bits = add_to(x, smaller(larger(self.t_to_x(from, w), 0), w));
        let b: Bits = add_to(x, smaller(larger(self.t_to_x(to, w), 0), w));
        if is_at_most(b, a) {
            None
        } else {
            Some((a, b))
        }
    }

    /// The cut-off stretch before the trim's start.
    pub open spec fn lead(self, x: Bits, w: Bits) -> Option<(Bits, Bits)> {
        match self.trim_start {
            Some(t) => {
                let end = fadd(x, clamped(self.place(t, w), 0, w));
                if less(0, t) && less(x, end) {
                    Some((x, end))
                } else {
                    None
                }
            },
            None => None,
        }
    }

    /// The cut-off stretch after the trim's end.
    pub open spec fn tail(self, x: Bits, w: Bits) -> Option<(Bits, Bits)> {
        match self.trim_end {
            Some(t) => {
                let start = fadd(x, clamped(self.place(t, w), 0, w));
                let end = fadd(x, w);
                if less(t, self.duration) && less(start, end) {
                    Some((start, end))
                } else {
                    None
                }
            },
            None => None,
        }
    }

    /// The cut-off stretch before the trim's start.
    pub fn trimmed_lead(&self, x: Bits, w: Bits) -> (r: Option<(Bits, Bits)>)
        requires
            at_most(0, w),
        ensures
            r == self.lead(x, w),
    {
        match self.trim_start {
            None => None,
            Some(t) => {
                let end: Bits = add_to(x, clamp(self.t_to_x(t, w), 0, w));
                if less_than(0, t) && less_than(x, end) {
                    Some((x, end))
                } else {
                    None
                }
            },
        }
    }

    /// The cut-off stretch after the trim's end.
    pub fn trimmed_tail(&self, x: Bits, w: Bits) -> (r: Option<(Bits, Bits)>)
        requires
            at_most(0, w),
        ensures
            r == self.tail(x, w),
    {
        match self.trim_end {
            None => None,
            Some(t) => {
                let start: Bits = add_to(x, clamp(self.t_to_x(t, w), 0, w));
                let end: Bits = add_to(x, w);
                if less_than(t, self.duration) && less_than(start, end) {
                    Some((start, end))
                } else {
                    None
                }
            },
        }
    }
}

/// Do two envelopes differ anywhere?
pub open spec fn envelopes_differ(a: Seq<(Bits, Bits)>, b: Seq<(Bits, Bits)>) -> bool {
    exists|i: int|
        0 <= i < a.len() && 0 <= i < b.len() && pair_differs(#[trigger] a[i], b[i])
}

pub open spec fn pair_differs(a: (Bits, Bits), b: (Bits, Bits)) -> bool {
    less(DIFFERENT, fabs(fsub(a.0, b.0))) || less(DIFFERENT, fabs(fsub(a.1, b.1)))
}

pub open spec fn samples_differ(a: Seq<Bits>, b: Seq<Bits>) -> bool {
    exists|i: int|
        0 <= i < a.len() && 0 <= i < b.len() && less(DIFFERENT, fabs(fsub(#[trigger] a[i], b[i])))
}

/// Does the processed sound differ from the input? The envelopes tell, where
/// both are there; otherwise the samples do.
pub open spec fn is_processed(
    env_in: Seq<(Bits, Bits)>,
    env_out: Seq<(Bits, Bits)>,
    input: Seq<Bits>,
    output: Seq<Bits>,
) -> bool {
    if input.len() == 0 || input.len() != output.len() {
        false
    } else if env_in.len() > 0 && env_out.len() > 0 {
        envelopes_differ(env_in, env_out)
    } else {
        samples_differ(input, output)
    }
}

/// Does the processed sound differ from the input?
pub fn processing_active(
    env_in: &Vec<(Bits, Bits)>,
    env_out: &Vec<(Bits, Bits)>,
    input: &Vec<Bits>,
    output: &Vec<Bits>,
) -> (r: bool)
    ensures
        r == is_processed(env_in@, env_out@, input@, output@),
{
    if input.len() == 0 || input.len() != output.len() {
        return false;
    }
    if env_in.len() > 0 && env_out.len() > 0 {
        let n: usize = if env_in.len() < env_out.len() {
            env_in.len()
        } else {
            env_out.len()
        };
        let mut i: usize = 0;
        while i < n
            invariant
                input@.len() > 0,
                input@.len() == output@.len(),
                env_in@.len() > 0,
                env_out@.len() > 0,
                n <= env_in@.len(),
                n <= env_out@.len(),
                n == env_in@.len() || n == env_out@.len(),
                i <= n,
                forall|k: int| 0 <= k < i ==> !pair_differs(#[trigger] env_in@[k], env_out@[k]),
            decreases n - i,
        {
            let a: (Bits, Bits) = env_in[i];
            let b: (Bits, Bits) = env_out[i];
            if less_than(DIFFERENT, absolute(subtract(a.0, b.0))) || less_than(
                DIFFERENT,
                absolute(subtract(a.1, b.1)),
            ) {
                assert(pair_differs(env_in@[i as int], env_out@[i as int]));
                return true;
            }
            i = i + 1;
        }
        return false;
    }
    let mut i: usize = 0;
    while i < input.len()
        invariant
            env_in@.len() == 0 || env_out@.len() == 0,
            input@.len() == output@.len(),
            i <= input@.len(),
            forall|k: int|
                0 <= k < i ==> !less(DIFFERENT, fabs(fsub(#[trigger] input@[k], output@[k]))),
        decreases input@.len() - i,
    {
        if less_than(DIFFERENT, absolute(subtract(input[i], output[i]))) {
            assert(less(DIFFERENT, fabs(fsub(input@[i as int], output@[i as int]))));
            return true;
        }
        i = i + 1;
    }
    false
}

// ---- Columns ----------------------------------------------------------------

/// The greatest of the samples from `a` up to `b`.
pub open spec fn highest(s: Seq<Bits>, a: int, b: int) -> Bits
    decreases b - a,
{
    if b <= a {
        MINUS_INFINITY
    } else {
        let m = highest(s, a, b - 1);
        if less(m, s[b - 1]) {
            s[b - 1]
        } else {
            m
        }
    }
}

/// The least of the samples from `a` up to `b`.
pub open spec fn lowest(s: Seq<Bits>, a: int, b: int) -> Bits
    decreases b - a,
{
    if b <= a {
        INFINITY
    } else {
        let m = lowest(s, a, b - 1);
        if less(s[b - 1], m) {
            s[b - 1]
        } else {
            m
        }
    }
}

/// The extremes of a stretch of samples.
#[derive(Clone, Copy, PartialEq, Eq, Debug, Structural)]
pub struct Extremes {
    pub hi: Bits,
    pub lo: Bits,
}

/// The extremes of the samples from `a` up to `b`; zero where there is none, or
/// where the greatest is not finite.
pub open spec fn extremes(s: Seq<Bits>, a: int, b: int) -> Extremes {
    if is_finite(highest(s, a, b)) {
        Extremes { hi: highest(s, a, b), lo: lowest(s, a, b) }
    } else {
        Extremes { hi: 0, lo: 0 }
    }
}

/// The greatest and the least of the samples from `a` up to `b`.
pub fn scan(s: &Vec<Bits>, a: usize, b: usize) -> (r: (Bits, Bits))
    requires
        b <= s@.len(),
    ensures
        r.0 == highest(s@, a as int, b as int),
        r.1 == lowest(s@, a as int, b as int),
{
    let mut hi: Bits = MINUS_INFINITY;
    let mut lo: Bits = INFINITY;
    if b <= a {
        return (hi, lo);
    }
    let mut i: usize = a;
    while i < b
        invariant
            a <= i <= b <= s@.len(),
            hi == highest(s@, a as int, i as int),
            lo == lowest(s@, a as int, i as int),
        decreases b - i,
    {
        let v: Bits = s[i];
        if less_than(hi, v) {
            hi = v;
        }
        if less_than(v, lo) {
            lo = v;
        }
        i = i + 1;
    }
    (hi, lo)
}

fn extremes_of(s: &Vec<Bits>, a: usize, b: usize) -> (r: Extremes)
    requires
        b <= s@.len(),
    ensures
        r == extremes(s@, a as int, b as int),
{
    let (hi, lo): (Bits, Bits) = scan(s, a, b);
    if hi % 0x8000_0000 < INFINITY {
        Extremes { hi, lo }
    } else {
        Extremes { hi: 0, lo: 0 }
    }
}

/// The first frame of column `px` of `pixels`, in a window of frames.
pub open spec fn column_start(px: nat, pixels: nat, start: nat, end: nat) -> nat {
    start + least(
        floor_product(fdiv(number(px), number(pixels)), (end - start) as nat),
        (end - start) as nat,
    )
}

/// The frames of column `px` of `pixels`: from the first on to the first of the
/// next column, but at least one.
pub open spec fn column_frames(px: nat, pixels: nat, start: nat, end: nat) -> (nat, nat) {
    let a = column_start(px, pixels, start, end);
    let b = column_start(px + 1, pixels, start, end);
    (a, least(most(b, a + 1), end))
}

/// The first frame of column `px` of `count`.
pub fn first_of_column(px: u64, count: usize, start: usize, end: usize) -> (r: usize)
    requires
        start <= end,
    ensures
        r == column_start(px as nat, count as nat, start as nat, end as nat),
        start <= r <= end,
{
    let span: usize = end - start;
    let o: usize = floor_times(divide_by(from_whole(px), from_whole(count as u64)), span as u64);
    if o < span {
        start + o
    } else {
        end
    }
}

/// The frames of column `px` of `count`.
pub fn column(px: usize, count: usize, start: usize, end: usize) -> (r: (usize, usize))
    requires
        start < end,
        px < count,
    ensures
        (r.0 as nat, r.1 as nat) == column_frames(px as nat, count as nat, start as nat, end as nat),
        start <= r.0 <= r.1 <= end,
{
    let a: usize = first_of_column(px as u64, count, start, end);
    let b: usize = first_of_column(px as u64 + 1, count, start, end);
    if a == end {
        return (a, end);
    }
    if b < a + 1 {
        (a, a + 1)
    } else {
        (a, b)
    }
}

/// The extremes of every column of a window of frames.
pub open spec fn column_extremes(s: Seq<Bits>, start: nat, end: nat, pixels: nat) -> Seq<Extremes> {
    Seq::new(
        pixels,
        |px: int|
            {
                let (a, b) = column_frames(px as nat, pixels, start, end);
                extremes(s, a as int, b as int)
            },
    )
}

/// The extremes of every column of a window of frames.
pub fn columns(s: &Vec<Bits>, start: usize, end: usize, count: usize) -> (list: Vec<Extremes>)
    requires
        start < end <= s@.len(),
    ensures
        list@ == column_extremes(s@, start as nat, end as nat, count as nat),
{
    let mut list: Vec<Extremes> = Vec::new();
    let mut px: usize = 0;
    while px < count
        invariant
            start < end <= s@.len(),
            px <= count,
            list@ == column_extremes(s@, start as nat, end as nat, count as nat).take(px as int),
        decreases count - px,
    {
        let (a, b): (usize, usize) = column(px, count, start, end);
        list.push(extremes_of(s, a, b));
        px = px + 1;
    }
    list
}

// ---- Smoothing --------------------------------------------------------------

/// How many columns on each side are smoothed together, by the samples in one.
pub open spec fn smoothing_reach(density: Bits) -> usize {
    if less(density, 0x4270_0000) {
        0
    } else if less(density, 0x4348_0000) {
        1
    } else if less(density, 0x4416_0000) {
        2
    } else if less(density, 0x44fa_0000) {
        3
    } else {
        4
    }
}

/// How many columns on each side are smoothed together: none below 60 samples
/// in a column, then one, two, three and four from 60, 200, 600 and 2000 on.
pub fn half_window(density: Bits) -> (r: usize)
    ensures
        r == smoothing_reach(density),
        r <= 4,
{
    if less_than(density, 0x4270_0000) {
        0
    } else if less_than(density, 0x4348_0000) {
        1
    } else if less_than(density, 0x4416_0000) {
        2
    } else if less_than(density, 0x44fa_0000) {
        3
    } else {
        4
    }
}

/// The weighted sum of the columns around `i`, the sum of the weights, and the
/// extreme, over the first `n` weights.
pub open spec fn gathered(
    raw: Seq<Bits>,
    kernel: Seq<Bits>,
    reach: nat,
    i: int,
    n: int,
    highest: bool,
) -> (Bits, Bits, Bits)
    decreases n,
{
    if n <= 0 {
        (
            0,
            0,
            if highest {
                MINUS_INFINITY
            } else {
                INFINITY
            },
        )
    } else {
        let (total, weight, extreme) = gathered(raw, kernel, reach, i, n - 1, highest);
        let at = i + n - 1 - reach;
        if at < 0 || at >= raw.len() {
            (total, weight, extreme)
        } else {
            let v = raw[at];
            let w = kernel[n - 1];
            (
                fadd(total, fmul(v, w)),
                fadd(weight, w),
                if highest && less(extreme, v) || !highest && less(v, extreme) {
                    v
                } else {
                    extreme
                },
            )
        }
    }
}

/// Half the weighted mean of the columns around, and half their extreme.
pub open spec fn smoothed_at(
    raw: Seq<Bits>,
    kernel: Seq<Bits>,
    reach: nat,
    i: int,
    highest: bool,
) -> Bits {
    let (total, weight, extreme) = gathered(raw, kernel, reach, i, kernel.len() as int, highest);
    let mean = if less(0, weight) {
        fdiv(total, weight)
    } else {
        raw[i]
    };
    fadd(fmul(HALF, mean), fmul(HALF, extreme))
}

/// Smooths the columns: half the mean of the columns around each, weighted by
/// the kernel, and half their extreme, so that loud peaks stay.
pub fn smooth(raw: &Vec<Bits>, kernel: &Vec<Bits>, reach: usize, highest: bool) -> (out: Vec<Bits>)
    requires
        raw@.len() + kernel@.len() <= usize::MAX,
    ensures
        reach == 0 ==> out@ == raw@,
        reach > 0 ==> out@ == Seq::new(
            raw@.len(),
            |i: int| smoothed_at(raw@, kernel@, reach as nat, i, highest),
        ),
{
    let mut out: Vec<Bits> = Vec::new();
    let mut i: usize = 0;
    while i < raw.len()
        invariant
            raw@.len() + kernel@.len() <= usize::MAX,
            i <= raw@.len(),
            out@.len() == i,
            forall|k: int|
                0 <= k < i ==> #[trigger] out@[k] == (if reach == 0 {
                    raw@[k]
                } else {
                    smoothed_at(raw@, kernel@, reach as nat, k, highest)
                }),
        decreases raw@.len() - i,
    {
        if reach == 0 {
            out.push(raw[i]);
        } else {
            let mut total: Bits = 0;
            let mut weight: Bits = 0;
            let mut extreme: Bits = if highest {
                MINUS_INFINITY
            } else {
                INFINITY
            };
            let mut j: usize = 0;
            while j < kernel.len()
                invariant
                    raw@.len() + kernel@.len() <= usize::MAX,
                    i < raw@.len(),
                    j <= kernel@.len(),
                    (total, weight, extreme) == gathered(
                        raw@,
                        kernel@,
                        reach as nat,
                        i as int,
                        j as int,
                        highest,
                    ),
                decreases kernel@.len() - j,
            {
                if i + j >= reach && i + j - reach < raw.len() {
                    let v: Bits = raw[i + j - reach];
                    let w: Bits = kernel[j];
                    total = add_to(total, multiply(v, w));
                    weight = add_to(weight, w);
                    if highest && less_than(extreme, v) || !highest && less_than(v, extreme) {
                        extreme = v;
                    }
                }
                j = j + 1;
            }
            let mean: Bits = if less_than(0, weight) {
                divide_by(total, weight)
            } else {
                raw[i]
            };
            out.push(add_to(multiply(HALF, mean), multiply(HALF, extreme)));
        }
        i = i + 1;
    }
    out
}

// ---- Where no cap is drawn --------------------------------------------------

/// The frame at which the exported part starts.
pub open spec fn first_kept(trim_start: Option<Bits>, rate: u32) -> nat {
    match trim_start {
        Some(t) => floor_product(t, rate as nat),
        None => 0,
    }
}

/// The frame at which the exported part ends.
pub open spec fn end_kept(trim_end: Option<Bits>, rate: u32, total: nat) -> nat {
    match trim_end {
        Some(t) => floor_product(t, rate as nat),
        None => most(total, 1),
    }
}

/// The fade-in and the fade-out of a zone, as frames; each from the first
/// number up to the second.
pub open spec fn fade_frames(
    from: Bits,
    to: Bits,
    z: ZoneParams,
    rate: u32,
    total: nat,
    kept: (nat, nat),
) -> ((nat, nat), (nat, nat)) {
    let zs = floor_product(from, rate as nat);
    let ze = least(floor_product(to, rate as nat), most(total, 1));
    let a = least(most(zs, kept.0), ze);
    let b = most(least(ze, kept.1), zs);
    let len = minus(b, a);
    let rise = least(floor_product(z.fade_in_secs, rate as nat), len);
    let fall = least(floor_product(z.fade_out_secs, rate as nat), len);
    ((a, a + rise), (minus(b, fall), b))
}

/// Is the frame inside a fade of that zone?
pub open spec fn in_fade_of(
    frame: nat,
    from: Bits,
    to: Bits,
    z: ZoneParams,
    rate: u32,
    total: nat,
    kept: (nat, nat),
) -> bool {
    let (rise, fall) = fade_frames(from, to, z, rate, total, kept);
    rise.0 <= frame < rise.1 || fall.0 <= frame < fall.1
}

/// Is the frame faded or cut off, so that its level says nothing about
/// clipping?
pub open spec fn is_quieted(
    frame: nat,
    zones: &ZoneMap,
    duration: Bits,
    rate: u32,
    total: nat,
    trim_start: Option<Bits>,
    trim_end: Option<Bits>,
) -> bool {
    let kept = (first_kept(trim_start, rate), end_kept(trim_end, rate, total));
    ||| frame < kept.0
    ||| frame >= kept.1
    ||| exists|i: int|
        0 <= i < zones.zones@.len() && in_fade_of(
            frame,
            #[trigger] zones.start_of(i),
            zones.end_of(i, duration),
            zones.zones@[i],
            rate,
            total,
            kept,
        )
}

/// Frames from `a` up to `b`.
#[derive(Clone, Copy, PartialEq, Eq, Debug, Structural)]
pub struct Range {
    pub a: usize,
    pub b: usize,
}

pub open spec fn in_ranges(ranges: Seq<Range>, frame: nat) -> bool {
    exists|k: int| 0 <= k < ranges.len() && (#[trigger] ranges[k]).a <= frame < ranges[k].b
}

/// The fades of all zones, as ranges of frames, with the exported part.
pub struct Quiet {
    pub kept: Range,
    pub fades: Vec<Range>,
}

impl Quiet {
    /// Is the frame in a fade or outside the exported part?
    pub open spec fn covers(&self, frame: nat) -> bool {
        frame < self.kept.a || frame >= self.kept.b || in_ranges(self.fades@, frame)
    }

    /// The parts of a file that are faded or cut off.
    pub fn new(
        zones: &ZoneMap,
        duration: Bits,
        rate: u32,
        total: usize,
        trim_start: Option<Bits>,
        trim_end: Option<Bits>,
    ) -> (q: Quiet)
        requires
            zones.wf(),
        ensures
            forall|frame: nat|
                #[trigger] q.covers(frame) == is_quieted(
                    frame,
                    zones,
                    duration,
                    rate,
                    total as nat,
                    trim_start,
                    trim_end,
                ),
    {
        let frames: usize = if total < 1 {
            1
        } else {
            total
        };
        let first: usize = match trim_start {
            Some(t) => floor_times(t, rate as u64),
            None => 0,
        };
        let last: usize = match trim_end {
            Some(t) => floor_times(t, rate as u64),
            None => frames,
        };
        let ghost kept = (first as nat, last as nat);
        let list: Vec<(Bits, Bits, ZoneParams)> = zones.iter_zones(duration);
        let mut fades: Vec<Range> = Vec::new();
        let mut i: usize = 0;
        while i < list.len()
            invariant
                frames as nat == most(total as nat, 1),
                kept == (first as nat, last as nat),
                i <= list@.len(),
                forall|frame: nat|
                    #[trigger] in_ranges(fades@, frame) == exists|k: int|
                        0 <= k < i && in_fade_of(
                            frame,
                            (#[trigger] list@[k]).0,
                            list@[k].1,
                            list@[k].2,
                            rate,
                            total as nat,
                            kept,
                        ),
            decreases list@.len() - i,
        {
            let (from, to, z): (Bits, Bits, ZoneParams) = list[i];
            let ghost before = fades@;
            let (rise, fall): (Range, Range) = fades_of(from, to, &z, rate, total, first, last);
            fades.push(rise);
            fades.push(fall);
            proof {
                assert forall|frame: nat|
                    #[trigger] in_ranges(fades@, frame) == exists|k: int|
                        0 <= k < i + 1 && in_fade_of(
                            frame,
                            (#[trigger] list@[k]).0,
                            list@[k].1,
                            list@[k].2,
                            rate,
                            total as nat,
                            kept,
                        ) by {
                    lemma_two_more(before, rise, fall, frame);
                    assert(fades@ == before.push(rise).push(fall));
                    let new = in_fade_of(
                        frame,
                        list@[i as int].0,
                        list@[i as int].1,
                        list@[i as int].2,
                        rate,
                        total as nat,
                        kept,
                    );
                    assert(in_ranges(fades@, frame) == (in_ranges(before, frame) || new));
                    if in_ranges(before, frame) {
                        let k = choose|k: int|
                            0 <= k < i && in_fade_of(
                                frame,
                                (#[trigger] list@[k]).0,
                                list@[k].1,
                                list@[k].2,
                                rate,
                                total as nat,
                                kept,
                            );
                        assert(0 <= k < i + 1);
                    }
                }
            }
            i = i + 1;
        }
        let q = Quiet { kept: Range { a: first, b: last }, fades };
        proof {
            assert forall|frame: nat|
                #[trigger] q.covers(frame) == is_quieted(
                    frame,
                    zones,
                    duration,
                    rate,
                    total as nat,
                    trim_start,
                    trim_end,
                ) by {
                if in_ranges(q.fades@, frame) {
                    let k = choose|k: int|
                        0 <= k < list@.len() && in_fade_of(
                            frame,
                            (#[trigger] list@[k]).0,
                            list@[k].1,
                            list@[k].2,
                            rate,
                            total as nat,
                            kept,
                        );
                    assert(list@[k].0 == zones.start_of(k));
                }
                if exists|k: int|
                    0 <= k < zones.zones@.len() && in_fade_of(
                        frame,
                        #[trigger] zones.start_of(k),
                        zones.end_of(k, duration),
                        zones.zones@[k],
                        rate,
                        total as nat,
                        kept,
                    ) {
                    let k = choose|k: int|
                        0 <= k < zones.zones@.len() && in_fade_of(
                            frame,
                            #[trigger] zones.start_of(k),
                            zones.end_of(k, duration),
                            zones.zones@[k],
                            rate,
                            total as nat,
                            kept,
                        );
                    assert(list@[k].0 == zones.start_of(k));
                    assert(in_ranges(q.fades@, frame));
                }
            }
        }
        q
    }

    /// Is the frame in a fade or outside the exported part?
    pub fn hides(&self, frame: usize) -> (r: bool)
        ensures
            r == self.covers(frame as nat),
    {
        if frame < self.kept.a || frame >= self.kept.b {
            return true;
        }
        let mut k: usize = 0;
        while k < self.fades.len()
            invariant
                k <= self.fades@.len(),
                forall|j: int|
                    0 <= j < k ==> !((#[trigger] self.fades@[j]).a <= frame < self.fades@[j].b),
            decreases self.fades@.len() - k,
        {
            let f: Range = self.fades[k];
            if f.a <= frame && frame < f.b {
                assert(self.fades@[k as int].a <= frame < self.fades@[k as int].b);
                return true;
            }
            k = k + 1;
        }
        false
    }
}

proof fn lemma_two_more(s: Seq<Range>, a: Range, b: Range, frame: nat)
    ensures
        in_ranges(s.push(a).push(b), frame) == (in_ranges(s, frame) || a.a <= frame < a.b || b.a <= frame
            < b.b),
{
    let t = s.push(a).push(b);
    if in_ranges(s, frame) {
        let k = choose|k: int| 0 <= k < s.len() && (#[trigger] s[k]).a <= frame < s[k].b;
        assert(t[k] == s[k]);
    }
    assert(t[s.len() as int] == a);
    assert(t[s.len() as int + 1] == b);
    if in_ranges(t, frame) {
        let k = choose|k: int| 0 <= k < t.len() && (#[trigger] t[k]).a <= frame < t[k].b;
        if k < s.len() {
            assert(t[k] == s[k]);
        }
    }
}

/// The fade-in and the fade-out of a zone, as frames.
fn fades_of(
    from: Bits,
    to: Bits,
    z: &ZoneParams,
    rate: u32,
    total: usize,
    first: usize,
    last: usize,
) -> (r: (Range, Range))
    ensures
        fade_frames(from, to, *z, rate, total as nat, (first as nat, last as nat)) == (
            (r.0.a as nat, r.0.b as nat),
            (r.1.a as nat, r.1.b as nat),
        ),
{
    let frames: usize = max_index(total, 1);
    let zs: usize = floor_times(from, rate as u64);
    let ze: usize = min_index(floor_times(to, rate as u64), frames);
    let fi: usize = floor_times(z.fade_in_secs, rate as u64);
    let fo: usize = floor_times(z.fade_out_secs, rate as u64);
    let a: usize = min_index(max_index(zs, first), ze);
    let b: usize = max_index(min_index(ze, last), zs);
    let len: usize = b.saturating_sub(a);
    let rise: usize = min_index(fi, len);
    let fall: usize = min_index(fo, len);
    (Range { a, b: a + rise }, Range { a: b.saturating_sub(fall), b })
}

// ---- Caps -------------------------------------------------------------------

/// Top and bottom of something in a column.
#[derive(Clone, Copy, PartialEq, Eq, Debug, Structural)]
pub struct Span {
    pub top: Bits,
    pub bottom: Bits,
}

/// Where an amplitude lies, in a waveform with that middle and half height.
pub open spec fn height_of(v: Bits, mid: Bits, half: Bits) -> Bits {
    fsub(mid, fmul(v, half))
}

/// The body of a column: between its extremes, cut at full scale.
pub open spec fn body(hi: Bits, lo: Bits, mid: Bits, half: Bits) -> Span {
    Span {
        top: height_of(clamped(hi, MINUS_ONE, ONE), mid, half),
        bottom: height_of(clamped(lo, MINUS_ONE, ONE), mid, half),
    }
}

/// The cap above a body that starts at `body_top`: what the input has there
/// beyond the output, at least a sliver if there is room for one.
pub open spec fn cap_above(
    in_hi: Bits,
    out_hi: Bits,
    body_top: Bits,
    mid: Bits,
    half: Bits,
    edge: Bits,
) -> Option<Span> {
    if !less(0, in_hi) || !less(CLIPPED, fsub(in_hi, out_hi)) {
        None
    } else {
        let reach = fmin(fmax(height_of(in_hi, mid, half), edge), body_top);
        let room = fsub(body_top, edge);
        let cap = if at_most(CAP_LEAST, room) {
            Span {
                top: if less(fsub(body_top, reach), CAP_LEAST) {
                    fmax(fsub(body_top, CAP_LEAST), edge)
                } else {
                    reach
                },
                bottom: body_top,
            }
        } else {
            Span { top: edge, bottom: fmax(fadd(edge, room), edge) }
        };
        if less(cap.top, cap.bottom) {
            Some(cap)
        } else {
            None
        }
    }
}

/// The cap below a body that ends at `body_bottom`.
pub open spec fn cap_below(
    in_lo: Bits,
    out_lo: Bits,
    body_bottom: Bits,
    mid: Bits,
    half: Bits,
    edge: Bits,
) -> Option<Span> {
    if !less(in_lo, 0) || !less(CLIPPED, fsub(out_lo, in_lo)) {
        None
    } else {
        let reach = fmin(height_of(in_lo, mid, half), edge);
        let room = fsub(edge, body_bottom);
        let cap = if at_most(CAP_LEAST, room) {
            Span {
                top: body_bottom,
                bottom: if less(fsub(reach, body_bottom), CAP_LEAST) {
                    fmin(fadd(body_bottom, CAP_LEAST), edge)
                } else {
                    reach
                },
            }
        } else {
            Span { top: fmin(fsub(edge, room), edge), bottom: edge }
        };
        if less(cap.top, cap.bottom) {
            Some(cap)
        } else {
            None
        }
    }
}

fn to_height(v: Bits, mid: Bits, half: Bits) -> (r: Bits)
    ensures
        r == height_of(v, mid, half),
{
    subtract(mid, multiply(v, half))
}

/// The body of a column.
pub fn column_body(hi: Bits, lo: Bits, mid: Bits, half: Bits) -> (r: Span)
    ensures
        r == body(hi, lo, mid, half),
{
    proof {
        lemma_full_scale();
    }
    Span {
        top: to_height(clamp(hi, MINUS_ONE, ONE), mid, half),
        bottom: to_height(clamp(lo, MINUS_ONE, ONE), mid, half),
    }
}

pub proof fn lemma_full_scale()
    ensures
        at_most(MINUS_ONE, ONE),
{
}

/// The cap above a body.
pub fn upper_cap(in_hi: Bits, out_hi: Bits, body_top: Bits, mid: Bits, half: Bits, edge: Bits) -> (r:
    Option<Span>)
    ensures
        r == cap_above(in_hi, out_hi, body_top, mid, half, edge),
{
    if !less_than(0, in_hi) || !less_than(CLIPPED, subtract(in_hi, out_hi)) {
        return None;
    }
    let reach: Bits = smaller(larger(to_height(in_hi, mid, half), edge), body_top);
    let room: Bits = subtract(body_top, edge);
    let cap: Span = if is_at_most(CAP_LEAST, room) {
        if less_than(subtract(body_top, reach), CAP_LEAST) {
            Span { top: larger(subtract(body_top, CAP_LEAST), edge), bottom: body_top }
        } else {
            Span { top: reach, bottom: body_top }
        }
    } else {
        Span { top: edge, bottom: larger(add_to(edge, room), edge) }
    };
    if less_than(cap.top, cap.bottom) {
        Some(cap)
    } else {
        None
    }
}

/// The cap below a body.
pub fn lower_cap(in_lo: Bits, out_lo: Bits, body_bottom: Bits, mid: Bits, half: Bits, edge: Bits) -> (r:
    Option<Span>)
    ensures
        r == cap_below(in_lo, out_lo, body_bottom, mid, half, edge),
{
    if !less_than(in_lo, 0) || !less_than(CLIPPED, subtract(out_lo, in_lo)) {
        return None;
    }
    let reach: Bits = smaller(to_height(in_lo, mid, half), edge);
    let room: Bits = subtract(edge, body_bottom);
    let cap: Span = if is_at_most(CAP_LEAST, room) {
        if less_than(subtract(reach, body_bottom), CAP_LEAST) {
            Span { top: body_bottom, bottom: smaller(add_to(body_bottom, CAP_LEAST), edge) }
        } else {
            Span { top: body_bottom, bottom: reach }
        }
    } else {
        Span { top: smaller(subtract(edge, room), edge), bottom: edge }
    };
    if less_than(cap.top, cap.bottom) {
        Some(cap)
    } else {
        None
    }
}

// ---- Laws -------------------------------------------------------------------

/// The columns of a window follow one another: no frame of the window is left
/// out between two of them, and none comes before the window or after it.
pub proof fn law_columns_cover(px: nat, pixels: nat, start: nat, end: nat)
    requires
        px + 1 < pixels,
        start < end,
    ensures
        ({
            let (a, b) = column_frames(px, pixels, start, end);
            let next = column_frames(px + 1, pixels, start, end).0;
            start <= a <= b <= end && next <= b
        }),
{
}

/// A cap is drawn only inside the waveform: never above its upper edge.
pub proof fn law_cap_inside(in_hi: Bits, out_hi: Bits, body_top: Bits, mid: Bits, half: Bits, edge: Bits)
    requires
        at_most(edge, body_top),
    ensures
        cap_above(in_hi, out_hi, body_top, mid, half, edge) matches Some(c) ==> at_most(edge, c.top)
            && less(c.top, c.bottom),
{
}

/// A cap is drawn only inside the waveform: never below its lower edge.
pub proof fn law_lower_cap_inside(
    in_lo: Bits,
    out_lo: Bits,
    body_bottom: Bits,
    mid: Bits,
    half: Bits,
    edge: Bits,
)
    requires
        at_most(body_bottom, edge),
    ensures
        cap_below(in_lo, out_lo, body_bottom, mid, half, edge) matches Some(c) ==> at_most(
            c.bottom,
            edge,
        ) && less(c.top, c.bottom),
{
}

/// The extremes of a stretch are samples of it, and no sample lies beyond them.
pub proof fn law_extremes_bound(s: Seq<Bits>, a: int, b: int, i: int)
    requires
        0 <= a <= i < b <= s.len(),
        !is_nan(s[i]),
    ensures
        at_most(s[i], highest(s, a, b)),
        at_most(lowest(s, a, b), s[i]),
    decreases b - a,
{
    lemma_never_nan(s, a, b - 1);
    if i < b - 1 {
        law_extremes_bound(s, a, b - 1, i);
    }
}

proof fn lemma_never_nan(s: Seq<Bits>, a: int, b: int)
    ensures
        !is_nan(highest(s, a, b)),
        !is_nan(lowest(s, a, b)),
    decreases b - a,
{
    if a < b {
        lemma_never_nan(s, a, b - 1);
    }
}

} // verus!
