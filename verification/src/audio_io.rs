//! The audio buffer: interleaved samples with a sample rate and a channel
//! count.

use vstd::prelude::*;
use crate::envelope::{mono_mix, mix_to_mono, channel_sum, sum_frame};
use crate::plan::{least, most, min_index, max_index, is_duration, duration_of, trim_frames, compute_trim_window, or_else, frame_at};
use crate::arith::{number, from_whole};
use crate::scalar::{fmul, fdiv, fabs, divide_by, multiply, absolute};
use crate::single::{Bits, less, less_than, floor_times};
use crate::zones::{ZoneMap, ZoneParams};

verus! {

/// Interleaved samples. `source_bit_depth` is the depth of the file they came
/// from, kept so that saving can preserve it.
pub struct AudioBuffer {
    pub samples: Vec<Bits>,
    pub sample_rate: u32,
    pub channels: u16,
    pub source_bit_depth: u16,
}

/// A channel count, at least one.
pub open spec fn at_least_one(channels: u16) -> nat {
    if channels == 0 {
        1
    } else {
        channels as nat
    }
}

/// The mean of the samples from `a` up to `b`.
pub open spec fn mean_of(s: Seq<Bits>, a: nat, b: nat) -> Bits {
    fdiv(channel_sum(s, a as int, b - a), number((b - a) as nat))
}

impl AudioBuffer {
    /// Whole frames in the buffer.
    pub open spec fn frame_count(&self) -> nat {
        self.samples@.len() / at_least_one(self.channels)
    }

    /// Number of whole frames.
    pub fn frames(&self) -> (n: usize)
        ensures
            n == self.frame_count(),
    {
        let ch: usize = if self.channels == 0 {
            1
        } else {
            self.channels as usize
        };
        self.samples.len() / ch
    }

    /// Length in seconds.
    pub fn duration_secs(&self) -> (d: Bits)
        ensures
            is_duration(d, self.frame_count(), self.sample_rate),
    {
        duration_of(self.frames(), self.sample_rate)
    }

    /// The mean of the channels, frame by frame.
    pub fn to_mono(&self) -> (mono: Vec<Bits>)
        ensures
            mono@ == mono_mix(self.samples@, at_least_one(self.channels)),
    {
        let ch: usize = if self.channels == 0 {
            1
        } else {
            self.channels as usize
        };
        mix_to_mono(&self.samples, ch)
    }

    /// The frames that count for trimming: none without channels.
    pub open spec fn trimmable(&self) -> nat {
        if self.channels == 0 {
            0
        } else {
            self.frame_count()
        }
    }

    /// The window of frames that the trim handles keep; none where they keep
    /// everything.
    pub fn trim_window_frames(&self, trim_start: Option<Bits>, trim_end: Option<Bits>) -> (w: Option<
        (usize, usize),
    >)
        ensures
            exists|d: Bits|
                #[trigger] is_duration(d, self.frame_count(), self.sample_rate) && w == trim_frames(
                    or_else(trim_start, 0),
                    or_else(trim_end, d),
                    d,
                    self.sample_rate,
                    self.trimmable(),
                ),
            w matches Some((a, b)) ==> a < b <= self.trimmable(),
    {
        let total: usize = if self.channels > 0 {
            self.frames()
        } else {
            0
        };
        let d: Bits = self.duration_secs();
        compute_trim_window(self.sample_rate, total, d, trim_start, trim_end)
    }

    /// The samples that are exported: those of the window, if it leaves
    /// something out and keeps something.
    pub open spec fn exported(&self, window: Option<(usize, usize)>) -> Seq<Bits> {
        match window {
            None => self.samples@,
            Some((a, b)) => {
                let total = self.frame_count();
                let f0 = least(a as nat, total);
                let f1 = most(least(b as nat, total), f0);
                if f1 > f0 && (f0 > 0 || f1 < total) {
                    self.samples@.subrange(
                        (f0 * at_least_one(self.channels)) as int,
                        (f1 * at_least_one(self.channels)) as int,
                    )
                } else {
                    self.samples@
                }
            },
        }
    }

    /// The part of the buffer that is exported, as a buffer of its own.
    pub fn export_slice(self, window: Option<(usize, usize)>) -> (out: AudioBuffer)
        ensures
            out.samples@ == self.exported(window),
            out.sample_rate == self.sample_rate,
            out.channels == self.channels,
            out.source_bit_depth == self.source_bit_depth,
    {
        let (a, b): (usize, usize) = match window {
            None => return self,
            Some(w) => w,
        };
        let ch: usize = if self.channels == 0 {
            1
        } else {
            self.channels as usize
        };
        let total: usize = self.frames();
        let f0: usize = min_index(a, total);
        let f1: usize = max_index(min_index(b, total), f0);
        if !(f1 > f0 && (f0 > 0 || f1 < total)) {
            return self;
        }
        proof {
            lemma_window_inside(f0 as nat, f1 as nat, ch as nat, self.samples@.len());
            assert(self.samples.len() <= usize::MAX);
        }
        let from: usize = f0 * ch;
        let to: usize = f1 * ch;
        let mut samples: Vec<Bits> = Vec::new();
        let mut i: usize = from;
        while i < to
            invariant
                from <= i <= to <= self.samples@.len(),
                samples@ =~= self.samples@.subrange(from as int, i as int),
            decreases to - i,
        {
            samples.push(self.samples[i]);
            i = i + 1;
        }
        AudioBuffer {
            samples,
            sample_rate: self.sample_rate,
            channels: self.channels,
            source_bit_depth: self.source_bit_depth,
        }
    }

    /// The samples of a zone, from the first on up to the second; none where
    /// the zone does not exist or is empty.
    pub open spec fn zone_samples(&self, zones: &ZoneMap, zone: nat, duration: Bits) -> Option<(nat, nat)> {
        let a = frame_at(zones.start_of(zone as int), self.sample_rate, self.frame_count());
        let b = frame_at(zones.end_of(zone as int, duration), self.sample_rate, self.frame_count());
        if zone >= zones.zones@.len() || b <= a {
            None
        } else {
            Some((a * at_least_one(self.channels), b * at_least_one(self.channels)))
        }
    }

    fn zone_bounds(&self, zones: &ZoneMap, zone: usize, duration: Bits) -> (r: Option<(usize, usize)>)
        requires
            zones.wf(),
        ensures
            match r {
                None => self.zone_samples(zones, zone as nat, duration) is None,
                Some((a, b)) => self.zone_samples(zones, zone as nat, duration) == Some(
                    (a as nat, b as nat),
                ) && a < b <= self.samples@.len(),
            },
    {
        let list: Vec<(Bits, Bits, ZoneParams)> = zones.iter_zones(duration);
        if zone >= list.len() {
            return None;
        }
        let (from, to, _z): (Bits, Bits, ZoneParams) = list[zone];
        let ch: usize = if self.channels == 0 {
            1
        } else {
            self.channels as usize
        };
        let frames: usize = self.frames();
        let a: usize = min_index(floor_times(from, self.sample_rate as u64), frames);
        let b: usize = min_index(floor_times(to, self.sample_rate as u64), frames);
        if b <= a {
            return None;
        }
        proof {
            lemma_window_inside(a as nat, b as nat, ch as nat, self.samples@.len());
            assert(self.samples.len() <= usize::MAX);
        }
        Some((a * ch, b * ch))
    }

    /// The mean of a zone's samples, over all channels.
    pub fn zone_mean(&self, zones: &ZoneMap, zone: usize, duration: Bits) -> (r: Option<Bits>)
        requires
            zones.wf(),
        ensures
            r == (match self.zone_samples(zones, zone as nat, duration) {
                None => None::<Bits>,
                Some((a, b)) => Some(mean_of(self.samples@, a, b)),
            }),
    {
        match self.zone_bounds(zones, zone, duration) {
            None => None,
            Some((a, b)) => Some(
                divide_by(sum_frame(&self.samples, a, b - a), from_whole((b - a) as u64)),
            ),
        }
    }
}

proof fn lemma_window_inside(f0: nat, f1: nat, ch: nat, len: nat)
    requires
        ch > 0,
        f0 <= f1 <= len / ch,
    ensures
        f0 * ch <= f1 * ch <= len,
        f0 < f1 ==> f0 * ch < f1 * ch,
{
    vstd::arithmetic::div_mod::lemma_fundamental_div_mod(len as int, ch as int);
    vstd::arithmetic::div_mod::lemma_mod_bound(len as int, ch as int);
    assert(f0 * ch <= f1 * ch && f1 * ch <= ch * (len / ch)) by (nonlinear_arith)
        requires
            f0 <= f1 <= len / ch,
            ch > 0,
    ;
    if f0 < f1 {
        assert(f0 * ch < f1 * ch) by (nonlinear_arith)
            requires
                f0 < f1,
                ch > 0,
        ;
    }
}

/// The largest magnitude of some samples after a gain.
pub open spec fn gained_peak(s: Seq<Bits>, gain: Bits, a: int, b: int) -> Bits
    decreases b - a,
{
    if b <= a {
        0
    } else {
        let before = gained_peak(s, gain, a, b - 1);
        let v = fabs(fmul(s[b - 1], gain));
        if less(before, v) {
            v
        } else {
            before
        }
    }
}

/// The peak of a zone of a mono signal after the zone's input gain, if it has
/// one that can be heard.
pub open spec fn zone_peak(
    mono: Seq<Bits>,
    zones: &ZoneMap,
    zone: nat,
    duration: Bits,
    rate: u32,
    gain: Bits,
) -> Option<Bits> {
    let a = frame_at(zones.start_of(zone as int), rate, mono.len());
    let b = frame_at(zones.end_of(zone as int, duration), rate, mono.len());
    let peak = gained_peak(mono, gain, a as int, b as int);
    if zone >= zones.zones@.len() || b <= a || less(peak, crate::single::MILLIONTH) {
        None
    } else {
        Some(peak)
    }
}

/// The peak of a zone of a mono signal after the zone's input gain.
pub fn zone_input_peak(
    mono: &Vec<Bits>,
    zones: &ZoneMap,
    zone: usize,
    duration: Bits,
    rate: u32,
    gain: Bits,
) -> (r: Option<Bits>)
    requires
        zones.wf(),
    ensures
        r == zone_peak(mono@, zones, zone as nat, duration, rate, gain),
{
    let list: Vec<(Bits, Bits, ZoneParams)> = zones.iter_zones(duration);
    if zone >= list.len() {
        return None;
    }
    let (from, to, _z): (Bits, Bits, ZoneParams) = list[zone];
    let a: usize = min_index(floor_times(from, rate as u64), mono.len());
    let b: usize = min_index(floor_times(to, rate as u64), mono.len());
    if b <= a {
        return None;
    }
    let mut peak: Bits = 0;
    let mut i: usize = a;
    while i < b
        invariant
            a <= i <= b <= mono@.len(),
            peak == gained_peak(mono@, gain, a as int, i as int),
        decreases b - i,
    {
        let v: Bits = absolute(multiply(mono[i], gain));
        if less_than(peak, v) {
            peak = v;
        }
        i = i + 1;
    }
    if less_than(peak, crate::single::MILLIONTH) {
        None
    } else {
        Some(peak)
    }
}

/// An export without trim, or with a trim that keeps everything, is the whole
/// buffer.
pub proof fn law_untrimmed_export_is_whole(buf: AudioBuffer)
    ensures
        buf.exported(None) == buf.samples@,
        buf.frame_count() <= usize::MAX ==> buf.exported(Some((0, buf.frame_count() as usize)))
            == buf.samples@,
{
}

/// A trimmed export has exactly the frames of the window.
pub proof fn law_trimmed_export_length(buf: AudioBuffer, a: usize, b: usize)
    requires
        a < b <= buf.frame_count(),
        a > 0 || b < buf.frame_count(),
    ensures
        buf.exported(Some((a, b))).len() == (b - a) * at_least_one(buf.channels),
{
    let ch = at_least_one(buf.channels);
    lemma_window_inside(a as nat, b as nat, ch, buf.samples@.len());
    assert((b - a) * ch == b * ch - a * ch) by (nonlinear_arith);
}

/// A trimmed export holds the frames of the window as they are: its first frame is the
/// window's first, and nothing is changed.
pub proof fn law_trimmed_export_content(buf: AudioBuffer, a: usize, b: usize, f: int, c: int)
    requires
        a < b <= buf.frame_count(),
        0 <= f < b - a,
        0 <= c < at_least_one(buf.channels),
    ensures
        ({
            let ch = at_least_one(buf.channels);
            buf.exported(Some((a, b)))[f * ch + c] == buf.samples@[(a + f) * ch + c]
        }),
{
    let ch = at_least_one(buf.channels) as int;
    lemma_window_inside(a as nat, b as nat, ch as nat, buf.samples@.len());
    assert((a + f) * ch + c == a * ch + (f * ch + c)) by (nonlinear_arith);
    assert(0 <= f * ch + c < b * ch - a * ch) by (nonlinear_arith)
        requires
            0 <= f < b - a,
            0 <= c < ch,
    ;
    assert(0 * ch == 0);
}

} // verus!
