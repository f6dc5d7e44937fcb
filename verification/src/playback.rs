//! The player: which sound is heard, where it stands, and what the device gets.
//!
//! The device asks for frames at its own rate. The positions in the file that
//! they fall on are stepped through in double precision, so that the pitch is
//! kept; everything heard and metered follows from them.

use vstd::prelude::*;
use vstd::arithmetic::div_mod::*;
use vstd::arithmetic::power2::pow2;
use crate::accuracy::{is_near, one, lemma_exact_quotient, lemma_near_number, lemma_one, lemma_whole_ratio};
use crate::arith::{number, from_whole};
use crate::envelope::lemma_frame_inside;
use crate::double::{DoubleBits, narrow, narrowed};
use crate::plan::{least, most};
use crate::scalar::{fadd, fsub, fmul, fdiv, fabs, truncated};
use crate::scalar::{add_to, subtract, multiply, divide_by, absolute, truncate};
use crate::single::{Bits, less, less_than, clamped, clamp, value, lemma_magnitude_order};
use crate::single::at_most_index;
use crate::viewport::MILLION;
use crate::wide::{Operation, compute, is_arithmetic, minus, over, plus, result, wide_truncate, wide_whole};

verus! {

/// The greatest level that a peak can hold, scaled.
pub const PEAK_TOP: Bits = 0x4f80_0000;

/// Which sound is played.
#[derive(Clone, Copy, PartialEq, Eq, Debug, Structural)]
pub enum Source {
    Input,
    Processed,
}

/// Where the player stands.
#[derive(Clone, Copy, PartialEq, Eq, Debug, Structural)]
pub struct PlaybackState {
    /// The frame of the file that comes next.
    pub frame: u64,
    pub playing: bool,
    pub which: Source,
    /// The peaks since the meters were last read, in millionths.
    pub peak_in: u32,
    pub peak_out: u32,
    /// Listen to the mean of the channels. The sound itself stays as it is.
    pub mono_fold: bool,
}

impl PlaybackState {
    /// A player at rest at the beginning, on the processed sound.
    pub fn new() -> (s: PlaybackState)
        ensures
            s == (PlaybackState {
                frame: 0,
                playing: false,
                which: Source::Processed,
                peak_in: 0,
                peak_out: 0,
                mono_fold: false,
            }),
    {
        PlaybackState {
            frame: 0,
            playing: false,
            which: Source::Processed,
            peak_in: 0,
            peak_out: 0,
            mono_fold: false,
        }
    }
}

/// The sounds to play, interleaved.
pub struct Buffers {
    pub input: Vec<Bits>,
    pub processed: Vec<Bits>,
    pub channels: u16,
    pub sample_rate: u32,
}

impl Buffers {
    pub open spec fn ch(&self) -> nat {
        most(self.channels as nat, 1)
    }

    /// The sound that is heard.
    pub open spec fn heard(&self, which: Source) -> Seq<Bits> {
        match which {
            Source::Input => self.input@,
            Source::Processed => self.processed@,
        }
    }

    pub open spec fn frames(&self, which: Source) -> nat {
        self.heard(which).len() / self.ch()
    }

    /// Both sounds are as long as the one that is heard.
    pub open spec fn covers(&self, which: Source) -> bool {
        let n = self.frames(which) * self.ch();
        n <= self.input@.len() && n <= self.processed@.len()
    }
}

/// The player.
pub struct Player {
    pub state: PlaybackState,
    pub buffers: Option<Buffers>,
    /// The rate of the device.
    pub sample_rate: u32,
}

/// A level in millionths.
pub open spec fn peak_code(v: Bits) -> u32 {
    least(truncated(clamped(fmul(v, MILLION), 0, PEAK_TOP)), u32::MAX as nat) as u32
}

/// The higher of a stored peak and a level.
pub open spec fn raised_peak(slot: u32, v: Bits) -> u32 {
    if peak_code(v) > slot {
        peak_code(v)
    } else {
        slot
    }
}

/// Raises a stored peak to a level.
pub fn update_peak(slot: &mut u32, val: Bits)
    ensures
        *final(slot) == raised_peak(*old(slot), val),
{
    proof {
        lemma_magnitude_order(0, PEAK_TOP);
    }
    let w: u64 = truncate(clamp(multiply(val, MILLION), 0, PEAK_TOP));
    let new: u32 = if w < u32::MAX as u64 {
        w as u32
    } else {
        u32::MAX
    };
    if new > *slot {
        *slot = new;
    }
}

// ---- One frame --------------------------------------------------------------

/// A position in the file: a frame, and how far the position lies beyond it.
#[derive(Clone, Copy, PartialEq, Eq, Debug, Structural)]
pub struct Step {
    pub index: usize,
    pub frac: Bits,
}

/// A channel at a position between two frames; the last frame goes on.
pub open spec fn sample_between(src: Seq<Bits>, ch: nat, frames: nat, at: Step, c: nat) -> Bits {
    let a = src[(at.index * ch + c) as int];
    let b = if at.index + 1 < frames {
        src[((at.index + 1) * ch + c) as int]
    } else {
        a
    };
    fadd(a, fmul(fsub(b, a), at.frac))
}

/// The first `n` channels at a position, added up.
pub open spec fn fold_sum(src: Seq<Bits>, ch: nat, frames: nat, at: Step, n: nat) -> Bits
    decreases n,
{
    if n == 0 {
        0
    } else {
        fadd(
            fold_sum(src, ch, frames, at, (n - 1) as nat),
            sample_between(src, ch, frames, at, (n - 1) as nat),
        )
    }
}

/// Are the channels folded into their mean?
pub open spec fn folds(mono: bool, ch: nat, out_channels: nat) -> bool {
    ch > 1 && (mono || out_channels == 1)
}

/// What output channel `oc` gets at a position.
pub open spec fn heard_at(
    src: Seq<Bits>,
    ch: nat,
    frames: nat,
    at: Step,
    mono: bool,
    out_channels: nat,
    oc: nat,
) -> Bits {
    if folds(mono, ch, out_channels) {
        fdiv(fold_sum(src, ch, frames, at, ch), number(ch))
    } else {
        sample_between(src, ch, frames, at, least(oc, (ch - 1) as nat))
    }
}

fn interpolate(src: &Vec<Bits>, ch: usize, frames: usize, at: Step, c: usize) -> (r: Bits)
    requires
        ch > 0,
        frames == src@.len() / ch as nat,
        at.index < frames,
        c < ch,
    ensures
        r == sample_between(src@, ch as nat, frames as nat, at, c as nat),
{
    proof {
        lemma_frame_inside(at.index as nat, ch as nat, src@.len());
        if at.index + 1 < frames {
            lemma_frame_inside((at.index + 1) as nat, ch as nat, src@.len());
        }
    }
    let n: usize = src.len();
    let a: Bits = src[at.index * ch + c];
    let b: Bits = if at.index + 1 < frames {
        src[(at.index + 1) * ch + c]
    } else {
        a
    };
    add_to(a, multiply(subtract(b, a), at.frac))
}

fn fold(src: &Vec<Bits>, ch: usize, frames: usize, at: Step) -> (r: Bits)
    requires
        ch > 0,
        frames == src@.len() / ch as nat,
        at.index < frames,
    ensures
        r == fdiv(fold_sum(src@, ch as nat, frames as nat, at, ch as nat), number(ch as nat)),
{
    let mut acc: Bits = 0;
    let mut c: usize = 0;
    while c < ch
        invariant
            ch > 0,
            frames == src@.len() / ch as nat,
            at.index < frames,
            c <= ch,
            acc == fold_sum(src@, ch as nat, frames as nat, at, c as nat),
        decreases ch - c,
    {
        acc = add_to(acc, interpolate(src, ch, frames, at, c));
        c = c + 1;
    }
    divide_by(acc, from_whole(ch as u64))
}

/// What output channel `oc` gets at a position.
pub fn output_sample(
    src: &Vec<Bits>,
    ch: usize,
    frames: usize,
    at: Step,
    mono: bool,
    out_channels: usize,
    oc: usize,
) -> (r: Bits)
    requires
        ch > 0,
        frames == src@.len() / ch as nat,
        at.index < frames,
    ensures
        r == heard_at(src@, ch as nat, frames as nat, at, mono, out_channels as nat, oc as nat),
{
    if ch > 1 && (mono || out_channels == 1) {
        return fold(src, ch, frames, at);
    }
    let c: usize = if oc < ch - 1 {
        oc
    } else {
        ch - 1
    };
    interpolate(src, ch, frames, at, c)
}

// ---- Positions --------------------------------------------------------------

/// Frames of the file for one frame of the device.
pub open spec fn pace<D: Fn(Operation, DoubleBits, DoubleBits) -> DoubleBits>(
    d: &D,
    file_rate: u32,
    device_rate: u32,
) -> DoubleBits {
    over(
        d,
        result(d, Operation::FromWhole, file_rate as u64, 0),
        result(d, Operation::FromWhole, device_rate as u64, 0),
    )
}

/// The position after `n` frames of the device.
pub open spec fn position<D: Fn(Operation, DoubleBits, DoubleBits) -> DoubleBits>(
    d: &D,
    frame: u64,
    pace: DoubleBits,
    n: nat,
) -> DoubleBits
    decreases n,
{
    if n == 0 {
        result(d, Operation::FromWhole, frame, 0)
    } else {
        plus(d, position(d, frame, pace, (n - 1) as nat), pace)
    }
}

/// `at` is the step of a position: the frame that it falls on, and its fraction.
pub open spec fn is_step<D: Fn(Operation, DoubleBits, DoubleBits) -> DoubleBits>(
    d: &D,
    pos: DoubleBits,
    at: Step,
) -> bool {
    &&& at.index == at_most_index(wide_whole(pos))
    &&& narrowed(minus(d, pos, result(d, Operation::FromWhole, at.index as u64, 0)), at.frac)
}

/// `steps` are the positions of the first `n` frames of the device.
pub open spec fn are_steps<D: Fn(Operation, DoubleBits, DoubleBits) -> DoubleBits>(
    d: &D,
    frame: u64,
    pace: DoubleBits,
    n: nat,
    steps: Seq<Step>,
) -> bool {
    &&& steps.len() == n
    &&& forall|i: int| 0 <= i < n ==> is_step(d, position(d, frame, pace, i as nat), #[trigger] steps[i])
}

/// The positions of the frames of the device, and the frame behind them. The
/// pitch is kept whatever the rate of the device.
pub fn steps_from<D: Fn(Operation, DoubleBits, DoubleBits) -> DoubleBits>(
    d: &D,
    frame: u64,
    file_rate: u32,
    device_rate: u32,
    n: usize,
) -> (r: (Vec<Step>, u64))
    requires
        is_arithmetic(d),
    ensures
        are_steps(d, frame, pace(d, file_rate, device_rate), n as nat, r.0@),
        r.1 == wide_whole(position(d, frame, pace(d, file_rate, device_rate), n as nat)),
{
    let file: DoubleBits = compute(d, Operation::FromWhole, file_rate as u64, 0);
    let device: DoubleBits = compute(d, Operation::FromWhole, device_rate as u64, 0);
    let by: DoubleBits = compute(d, Operation::Over, file, device);
    let mut pos: DoubleBits = compute(d, Operation::FromWhole, frame, 0);
    let mut steps: Vec<Step> = Vec::new();
    let mut i: usize = 0;
    while i < n
        invariant
            is_arithmetic(d),
            by == pace(d, file_rate, device_rate),
            i <= n,
            pos == position(d, frame, by, i as nat),
            are_steps(d, frame, by, i as nat, steps@),
        decreases n - i,
    {
        let w: u64 = wide_truncate(pos);
        let index: usize = if w > usize::MAX as u64 {
            usize::MAX
        } else {
            w as usize
        };
        let back: DoubleBits = compute(d, Operation::FromWhole, index as u64, 0);
        let frac: Bits = narrow(compute(d, Operation::Minus, pos, back));
        steps.push(Step { index, frac });
        pos = compute(d, Operation::Plus, pos, by);
        i = i + 1;
    }
    (steps, wide_truncate(pos))
}

// ---- The device's buffer ----------------------------------------------------

/// The first of the frames from `f` on that lies behind the file; `n` where
/// none of them does.
pub open spec fn played(steps: Seq<Step>, f: nat, n: nat, frames: nat) -> nat
    decreases n - f,
{
    if f >= n || steps[f as int].index >= frames {
        f
    } else {
        played(steps, f + 1, n, frames)
    }
}

/// The first `n` frames of the device's buffer, the rest being silent.
pub open spec fn sound(
    src: Seq<Bits>,
    ch: nat,
    frames: nat,
    steps: Seq<Step>,
    mono: bool,
    out_channels: nat,
    n: nat,
    len: nat,
) -> Seq<Bits> {
    Seq::new(
        len,
        |k: int|
            if k < n * out_channels {
                heard_at(
                    src,
                    ch,
                    frames,
                    steps[k / out_channels as int],
                    mono,
                    out_channels,
                    (k % out_channels as int) as nat,
                )
            } else {
                0
            },
    )
}

/// The peak of the first channel at the first `n` positions.
pub open spec fn peak_at(src: Seq<Bits>, ch: nat, steps: Seq<Step>, n: nat) -> Bits
    decreases n,
{
    if n == 0 {
        0
    } else {
        let before = peak_at(src, ch, steps, (n - 1) as nat);
        let v = fabs(src[(steps[n - 1].index * ch) as int]);
        if less(before, v) {
            v
        } else {
            before
        }
    }
}

fn silent(len: usize) -> (v: Vec<Bits>)
    ensures
        v@ == Seq::new(len as nat, |k: int| 0u32),
{
    let mut v: Vec<Bits> = Vec::new();
    while v.len() < len
        invariant
            v@.len() <= len,
            v@ =~= Seq::new(v@.len(), |k: int| 0u32),
        decreases len - v@.len(),
    {
        v.push(0);
    }
    v
}

/// The frames of a buffer of `len` samples.
pub open spec fn device_frames(len: nat, out_channels: nat) -> nat {
    len / most(out_channels, 1)
}

/// A frame as seconds.
pub open spec fn seconds_at(frame: nat, rate: u32) -> Bits {
    fdiv(number(frame), number(rate as nat))
}

impl Player {
    /// A player without sounds.
    pub fn new(sample_rate: u32) -> (p: Player)
        ensures
            p.state == (PlaybackState {
                frame: 0,
                playing: false,
                which: Source::Processed,
                peak_in: 0,
                peak_out: 0,
                mono_fold: false,
            }),
            p.buffers is None,
            p.sample_rate == sample_rate,
    {
        Player { state: PlaybackState::new(), buffers: None, sample_rate }
    }

    /// Takes new sounds, and stops at their beginning.
    pub fn load(&mut self, input: Vec<Bits>, processed: Vec<Bits>, channels: u16, sample_rate: u32)
        ensures
            final(self).buffers == Some(Buffers { input, processed, channels, sample_rate }),
            final(self).state == (PlaybackState { frame: 0, playing: false, ..old(self).state }),
            final(self).sample_rate == old(self).sample_rate,
    {
        self.buffers = Some(Buffers { input, processed, channels, sample_rate });
        self.state.frame = 0;
        self.state.playing = false;
    }

    /// Takes a new processed sound and goes on playing.
    pub fn update_processed(&mut self, processed: Vec<Bits>)
        ensures
            final(self).state == old(self).state,
            final(self).sample_rate == old(self).sample_rate,
            final(self).buffers == (match old(self).buffers {
                Some(b) => Some(Buffers { processed, ..b }),
                None => None,
            }),
    {
        let taken: Option<Buffers> = self.buffers.take();
        self.buffers = match taken {
            Some(b) => Some(
                Buffers {
                    input: b.input,
                    processed,
                    channels: b.channels,
                    sample_rate: b.sample_rate,
                },
            ),
            None => None,
        };
    }

    pub fn play(&mut self)
        ensures
            *final(self) == (Player {
                state: PlaybackState { playing: true, ..old(self).state },
                ..*old(self)
            }),
    {
        self.state.playing = true;
    }

    pub fn pause(&mut self)
        ensures
            *final(self) == (Player {
                state: PlaybackState { playing: false, ..old(self).state },
                ..*old(self)
            }),
    {
        self.state.playing = false;
    }

    /// Plays if it does not, and the other way round.
    pub fn toggle(&mut self)
        ensures
            *final(self) == (Player {
                state: PlaybackState { playing: !old(self).state.playing, ..old(self).state },
                ..*old(self)
            }),
    {
        if self.is_playing() {
            self.pause();
        } else {
            self.play();
        }
    }

    /// Stops and goes back to the beginning.
    pub fn stop(&mut self)
        ensures
            *final(self) == (Player {
                state: PlaybackState { playing: false, frame: 0, ..old(self).state },
                ..*old(self)
            }),
    {
        self.state.playing = false;
        self.state.frame = 0;
    }

    pub fn seek(&mut self, frame: u64)
        ensures
            *final(self) == (Player {
                state: PlaybackState { frame, ..old(self).state },
                ..*old(self)
            }),
    {
        self.state.frame = frame;
    }

    pub fn set_source(&mut self, src: Source)
        ensures
            *final(self) == (Player {
                state: PlaybackState { which: src, ..old(self).state },
                ..*old(self)
            }),
    {
        self.state.which = src;
    }

    pub fn current_source(&self) -> (s: Source)
        ensures
            s == self.state.which,
    {
        self.state.which
    }

    /// Changes to the other sound.
    pub fn toggle_source(&mut self)
        ensures
            *final(self) == (Player {
                state: PlaybackState {
                    which: if old(self).state.which == Source::Input {
                        Source::Processed
                    } else {
                        Source::Input
                    },
                    ..old(self).state
                },
                ..*old(self)
            }),
    {
        let next: Source = match self.current_source() {
            Source::Input => Source::Processed,
            Source::Processed => Source::Input,
        };
        self.set_source(next);
    }

    pub fn set_mono_fold(&mut self, on: bool)
        ensures
            *final(self) == (Player {
                state: PlaybackState { mono_fold: on, ..old(self).state },
                ..*old(self)
            }),
    {
        self.state.mono_fold = on;
    }

    pub fn is_playing(&self) -> (r: bool)
        ensures
            r == self.state.playing,
    {
        self.state.playing
    }

    /// Reads the peaks since the last call and resets them.
    pub fn take_peaks(&mut self) -> (r: (Bits, Bits))
        ensures
            r.0 == fdiv(number(old(self).state.peak_in as nat), MILLION),
            r.1 == fdiv(number(old(self).state.peak_out as nat), MILLION),
            *final(self) == (Player {
                state: PlaybackState { peak_in: 0, peak_out: 0, ..old(self).state },
                ..*old(self)
            }),
    {
        let a: Bits = divide_by(from_whole(self.state.peak_in as u64), MILLION);
        let b: Bits = divide_by(from_whole(self.state.peak_out as u64), MILLION);
        self.state.peak_in = 0;
        self.state.peak_out = 0;
        (a, b)
    }

    /// The rate by which frames are seconds.
    pub open spec fn rate(&self) -> u32 {
        match self.buffers {
            Some(b) => b.sample_rate,
            None => self.sample_rate,
        }
    }

    /// Where the player stands, in seconds.
    pub fn position_secs(&self) -> (r: Bits)
        ensures
            r == seconds_at(self.state.frame as nat, self.rate()),
    {
        let rate: u32 = match &self.buffers {
            Some(b) => b.sample_rate,
            None => self.sample_rate,
        };
        divide_by(from_whole(self.state.frame), from_whole(rate as u64))
    }

    /// Is there anything to play?
    pub open spec fn sounds(&self) -> bool {
        self.state.playing && self.buffers is Some && self.buffers->0.frames(self.state.which) > 0
    }

    /// The buffer of the device and the state of the player after it, for given
    /// positions of the frames.
    pub open spec fn fills(&self, len: nat, out_channels: nat, steps: Seq<Step>, after: u64, out: Seq<Bits>, next: Player) -> bool {
        &&& next.buffers == self.buffers
        &&& next.sample_rate == self.sample_rate
        &&& if self.sounds() {
            let b = self.buffers->0;
            let s = self.state;
            let frames = b.frames(s.which);
            let total = device_frames(len, out_channels);
            let n = played(steps, 0, total, frames);
            &&& out == sound(b.heard(s.which), b.ch(), frames, steps, s.mono_fold, out_channels, n, len)
            &&& next.state == PlaybackState {
                playing: n == total,
                frame: if n == total {
                    after
                } else {
                    frames as u64
                },
                peak_in: raised_peak(s.peak_in, peak_at(b.input@, b.ch(), steps, n)),
                peak_out: raised_peak(s.peak_out, peak_at(b.processed@, b.ch(), steps, n)),
                ..s
            }
        } else {
            next.state == self.state && out == Seq::new(len, |k: int| 0u32)
        }
    }

    /// Fills the device's buffer. `steps` are the positions that its frames fall
    /// on, and `after` is the frame behind them. At the end of the file the
    /// player stops there.
    pub fn fill_steps(&mut self, len: usize, out_channels: u16, steps: &Vec<Step>, after: u64) -> (out: Vec<Bits>)
        requires
            steps@.len() >= device_frames(len as nat, out_channels as nat),
            old(self).buffers is Some ==> old(self).buffers->0.covers(old(self).state.which),
        ensures
            old(self).fills(len as nat, out_channels as nat, steps@, after, out@, *final(self)),
    {
        let s: PlaybackState = self.state;
        if !s.playing {
            return silent(len);
        }
        let (out, n, total, frames, pi, po): (Vec<Bits>, usize, usize, usize, Bits, Bits) =
            match &self.buffers {
            None => {
                return silent(len);
            },
            Some(b) => {
                let ch: usize = if b.channels < 1 {
                    1
                } else {
                    b.channels as usize
                };
                let src: &Vec<Bits> = match s.which {
                    Source::Input => &b.input,
                    Source::Processed => &b.processed,
                };
                let frames: usize = src.len() / ch;
                if frames == 0 {
                    return silent(len);
                }
                let oc: usize = out_channels as usize;
                let total: usize = len / if oc < 1 {
                    1
                } else {
                    oc
                };
                let n: usize = count_played(steps, total, frames);
                proof {
                    let d = most(oc as nat, 1) as int;
                    lemma_fundamental_div_mod(len as int, d);
                    lemma_mod_bound(len as int, d);
                    assert(n * oc <= len) by (nonlinear_arith)
                        requires
                            0 <= n <= total,
                            0 <= oc <= d,
                            len == d * total + len as int % d,
                            len as int % d >= 0,
                    ;
                }
                let pi: Bits = track_peak(&b.input, ch, steps, n, frames);
                let po: Bits = track_peak(&b.processed, ch, steps, n, frames);
                (write_sound(src, ch, frames, steps, s.mono_fold, oc, n, len), n, total, frames, pi, po)
            },
        };
        update_peak(&mut self.state.peak_in, pi);
        update_peak(&mut self.state.peak_out, po);
        if n < total {
            self.state.playing = false;
            self.state.frame = frames as u64;
        } else {
            self.state.frame = after;
        }
        out
    }

    /// Are both sounds as long as the one that is heard?
    pub fn can_fill(&self) -> (r: bool)
        ensures
            r == (self.buffers is Some ==> self.buffers->0.covers(self.state.which)),
    {
        match &self.buffers {
            None => true,
            Some(b) => {
                let ch: usize = if b.channels < 1 {
                    1
                } else {
                    b.channels as usize
                };
                let heard: usize = match self.state.which {
                    Source::Input => b.input.len(),
                    Source::Processed => b.processed.len(),
                };
                proof {
                    assert((heard / ch) * ch <= heard) by (nonlinear_arith)
                        requires
                            ch > 0,
                    ;
                }
                let n: usize = (heard / ch) * ch;
                n <= b.input.len() && n <= b.processed.len()
            },
        }
    }

    /// Fills the device's buffer of `len` samples from where the player stands.
    /// Nothing but silence comes while it does not play, and at the end of the
    /// file it stops.
    pub fn fill<D: Fn(Operation, DoubleBits, DoubleBits) -> DoubleBits>(
        &mut self,
        d: &D,
        len: usize,
        out_channels: u16,
        device_rate: u32,
    ) -> (out: Vec<Bits>)
        requires
            is_arithmetic(d),
            old(self).buffers is Some ==> old(self).buffers->0.covers(old(self).state.which),
        ensures
            old(self).sounds() ==> ({
                let frame = old(self).state.frame;
                let by = pace(d, old(self).buffers->0.sample_rate, device_rate);
                let n = device_frames(len as nat, out_channels as nat);
                exists|steps: Seq<Step>| #[trigger]
                    are_steps(d, frame, by, n, steps) && old(self).fills(
                        len as nat,
                        out_channels as nat,
                        steps,
                        wide_whole(position(d, frame, by, n)) as u64,
                        out@,
                        *final(self),
                    )
            }),
            !old(self).sounds() ==> old(self).fills(
                len as nat,
                out_channels as nat,
                Seq::empty(),
                0,
                out@,
                *final(self),
            ),
    {
        let file_rate: u32 = match &self.buffers {
            None => {
                return silent(len);
            },
            Some(b) => b.sample_rate,
        };
        let oc: usize = out_channels as usize;
        let n: usize = len / if oc < 1 {
            1
        } else {
            oc
        };
        let (steps, after): (Vec<Step>, u64) = steps_from(d, self.state.frame, file_rate, device_rate, n);
        self.fill_steps(len, out_channels, &steps, after)
    }
}

fn count_played(steps: &Vec<Step>, total: usize, frames: usize) -> (n: usize)
    requires
        steps@.len() >= total,
    ensures
        n == played(steps@, 0, total as nat, frames as nat),
        n <= total,
        forall|f: int| 0 <= f < n ==> (#[trigger] steps@[f]).index < frames,
{
    let mut n: usize = 0;
    while n < total && steps[n].index < frames
        invariant
            steps@.len() >= total,
            n <= total,
            played(steps@, 0, total as nat, frames as nat) == played(
                steps@,
                n as nat,
                total as nat,
                frames as nat,
            ),
            forall|f: int| 0 <= f < n ==> (#[trigger] steps@[f]).index < frames,
        decreases total - n,
    {
        n = n + 1;
    }
    n
}

fn track_peak(src: &Vec<Bits>, ch: usize, steps: &Vec<Step>, n: usize, frames: usize) -> (r: Bits)
    requires
        ch > 0,
        frames * ch <= src@.len(),
        n <= steps@.len(),
        forall|f: int| 0 <= f < n ==> (#[trigger] steps@[f]).index < frames,
    ensures
        r == peak_at(src@, ch as nat, steps@, n as nat),
{
    let len: usize = src.len();
    let mut peak: Bits = 0;
    let mut f: usize = 0;
    while f < n
        invariant
            ch > 0,
            frames * ch <= src@.len() == len,
            f <= n <= steps@.len(),
            forall|g: int| 0 <= g < n ==> (#[trigger] steps@[g]).index < frames,
            peak == peak_at(src@, ch as nat, steps@, f as nat),
        decreases n - f,
    {
        let i: usize = steps[f].index;
        assert(i * ch + ch <= frames * ch) by (nonlinear_arith)
            requires
                i < frames,
                ch > 0,
        ;
        assert(0 <= i * ch) by (nonlinear_arith)
            requires
                i >= 0,
                ch > 0,
        ;
        let v: Bits = absolute(src[i * ch]);
        if less_than(peak, v) {
            peak = v;
        }
        f = f + 1;
    }
    peak
}

fn write_sound(
    src: &Vec<Bits>,
    ch: usize,
    frames: usize,
    steps: &Vec<Step>,
    mono: bool,
    oc: usize,
    n: usize,
    len: usize,
) -> (out: Vec<Bits>)
    requires
        ch > 0,
        frames == src@.len() / ch as nat,
        n <= steps@.len(),
        n * oc <= len,
        forall|f: int| 0 <= f < n ==> (#[trigger] steps@[f]).index < frames,
    ensures
        out@ == sound(
            src@,
            ch as nat,
            frames as nat,
            steps@,
            mono,
            oc as nat,
            n as nat,
            len as nat,
        ),
{
    let ghost whole = sound(
        src@,
        ch as nat,
        frames as nat,
        steps@,
        mono,
        oc as nat,
        n as nat,
        len as nat,
    );
    let mut out: Vec<Bits> = Vec::new();
    let mut f: usize = 0;
    let mut c: usize = 0;
    let mut k: usize = 0;
    while k < len
        invariant
            ch > 0,
            frames == src@.len() / ch as nat,
            n <= steps@.len(),
            forall|g: int| 0 <= g < n ==> (#[trigger] steps@[g]).index < frames,
            whole == sound(
                src@,
                ch as nat,
                frames as nat,
                steps@,
                mono,
                oc as nat,
                n as nat,
                len as nat,
            ),
            k <= len,
            f <= n,
            f < n && oc > 0 ==> c < oc && k == f * oc + c,
            f == n || oc == 0 ==> n * oc <= k,
            out@ =~= whole.take(k as int),
        decreases len - k,
    {
        let v: Bits = if f < n && oc > 0 {
            proof {
                assert(f * oc + c < n * oc) by (nonlinear_arith)
                    requires
                        f < n,
                        c < oc,
                ;
                lemma_fundamental_div_mod_converse(k as int, oc as int, f as int, c as int);
            }
            let s: Bits = output_sample(src, ch, frames, steps[f], mono, oc, c);
            c = c + 1;
            if c == oc {
                f = f + 1;
                c = 0;
                proof {
                    assert((f - 1) * oc + oc == f * oc) by (nonlinear_arith);
                }
            }
            s
        } else {
            0
        };
        assert(v == whole[k as int]);
        out.push(v);
        k = k + 1;
    }
    out
}

// ---- Laws -------------------------------------------------------------------

/// Folded to mono, every output channel hears the same.
pub proof fn law_fold_reaches_every_channel(
    src: Seq<Bits>,
    ch: nat,
    frames: nat,
    at: Step,
    out_channels: nat,
    a: nat,
    b: nat,
)
    requires
        ch > 1,
    ensures
        heard_at(src, ch, frames, at, true, out_channels, a) == heard_at(
            src,
            ch,
            frames,
            at,
            true,
            out_channels,
            b,
        ),
{
}

/// A peak only rises until it is read.
pub proof fn law_peak_rises(slot: u32, v: Bits)
    ensures
        slot <= raised_peak(slot, v),
        peak_code(v) <= raised_peak(slot, v),
{
}

/// What is written before the end of the file lies inside it.
pub proof fn law_played_inside(steps: Seq<Step>, f: nat, n: nat, frames: nat, i: nat)
    requires
        f <= i < played(steps, f, n, frames),
        n <= steps.len(),
    ensures
        steps[i as int].index < frames,
    decreases n - f,
{
    if f < n && steps[f as int].index < frames && i > f {
        law_played_inside(steps, f + 1, n, frames, i);
    }
}

/// The player stands at the seconds of its frame: the frame over the rate, up to rounding.
pub proof fn law_position_is_frame_over_rate(frame: nat, rate: u32)
    requires
        frame <= 0x10_0000_0000_0000,
        rate >= 1,
    ensures
        frame >= 1 ==> is_near(value(seconds_at(frame, rate)), frame * one(), rate as int, 8),
        frame == 0 ==> value(seconds_at(frame, rate)) == 0,
{
    if frame >= 1 {
        lemma_whole_ratio(frame, rate as nat);
    } else {
        lemma_one();
        lemma_near_number(0);
        lemma_near_number(rate as nat);
        assert(0 * one() == 0);
        assert(0 * pow2(149) == 0);
        assert((0nat * pow2(149)) * value(number(rate as nat)) == 0) by (nonlinear_arith)
            requires
                0nat * pow2(149) == 0,
        ;
        lemma_exact_quotient(number(0), number(rate as nat), 0, 149);
    }
}

/// Is an arithmetic exact on whole numbers of the size of positions?
pub open spec fn counts_exactly<D: Fn(Operation, DoubleBits, DoubleBits) -> DoubleBits>(d: &D) -> bool {
    &&& forall|a: u64, b: u64|
        a < 0x1_0000_0000_0000 && b < 0x1_0000_0000_0000 ==> #[trigger] plus(
            d,
            result(d, Operation::FromWhole, a, 0),
            result(d, Operation::FromWhole, b, 0),
        ) == result(d, Operation::FromWhole, (a + b) as u64, 0)
    &&& forall|a: u64, b: u64, k: u64|
        #![trigger over(d, result(d, Operation::FromWhole, a, 0), result(d, Operation::FromWhole, b, 0)), result(d, Operation::FromWhole, k, 0)]
        b > 0 && a < 0x1_0000_0000_0000 && a == k * b ==> over(d, result(d, Operation::FromWhole, a, 0), result(d, Operation::FromWhole, b, 0))
            == result(d, Operation::FromWhole, k, 0)
}

/// A file keeps its pitch on a device of another rate: where the file has `k` times the
/// rate of the device, every frame of the device moves `k` frames on in the file.
pub proof fn law_file_keeps_its_pace<D: Fn(Operation, DoubleBits, DoubleBits) -> DoubleBits>(
    d: &D,
    frame: u64,
    device_rate: u32,
    k: u64,
    n: nat,
)
    requires
        counts_exactly(d),
        device_rate > 0,
        k * device_rate <= u32::MAX,
        n < 0x1000,
        frame < 0x1000_0000_0000,
    ensures
        position(d, frame, pace(d, (k * device_rate) as u32, device_rate), n) == result(
            d,
            Operation::FromWhole,
            (frame + k * n) as u64,
            0,
        ),
    decreases n,
{
    let file = (k * device_rate) as u32;
    let step = result(d, Operation::FromWhole, k, 0);
    assert(pace(d, file, device_rate) == step);
    assert(k <= u32::MAX) by (nonlinear_arith)
        requires
            k * device_rate <= u32::MAX,
            device_rate >= 1,
    ;
    assert(0 <= k * n <= 0x1000_0000_0000) by (nonlinear_arith)
        requires
            0 <= k <= 0xffff_ffff,
            0 <= n < 0x1000,
    ;
    if n > 0 {
        law_file_keeps_its_pace(d, frame, device_rate, k, (n - 1) as nat);
        let at = (frame + k * (n - 1)) as u64;
        assert(k * (n - 1) == k * n - k && 0 <= k * (n - 1)) by (nonlinear_arith)
            requires
                n >= 1,
                k >= 0,
        ;
        assert(plus(d, result(d, Operation::FromWhole, at, 0), step) == result(
            d,
            Operation::FromWhole,
            (at + k) as u64,
            0,
        ));
    } else {
        assert(k * 0 == 0);
    }
}

/// Switching between the original and the processed sound changes what is heard and
/// nothing else: the one is the input as it is, the other what the zones made of it.
pub proof fn law_switch_picks_sound(b: Buffers)
    ensures
        b.heard(Source::Input) == b.input@,
        b.heard(Source::Processed) == b.processed@,
{
}

} // verus!
