//! What goes on by itself while the player runs: the playhead, the meters, the
//! mark under the pointer, and when a display has to be drawn anew.

use vstd::prelude::*;
use vstd::arithmetic::power2::*;
use crate::accuracy::one;
use crate::arith::lemma_sum;
use crate::fft::SPECTRUM_FFT_SIZE;
use crate::rounding::lemma_nearest_bounds;
use crate::scalar::{fadd, fsub, fmul, fdiv, fmax, fabs, negated, lemma_negated, lemma_scaled_down, lemma_plus_zero};
use crate::scalar::{add_to, subtract, multiply, divide_by, larger, absolute};
use crate::single::{Bits, ONE, less, less_than, at_most, at_least_zero, not_negative, is_finite, negative, magnitude, unsigned, significand, last_digit, floor_product, floor_times, at_most_index, value, lemma_zero, lemma_magnitude_order};
use crate::transfer::law_frame_of_time;

verus! {

/// The playhead is drawn anew when it has moved by more than this.
pub const HEAD_STEP: Bits = 0x3c23_d70a;
/// The share of a meter that stays, and the share that the new peak has.
pub const METER_KEEPS: Bits = 0x3f59_999a;
pub const METER_TAKES: Bits = 0x3e19_999a;
/// A meter below this is at rest; a change of less is not drawn.
pub const METER_REST: Bits = 0x38d1_b717;
/// The mark under the pointer moves in steps of the file's length by this.
pub const MARK_STEPS: Bits = 0x44bb_8000;
/// The step of the mark without a file.
pub const MARK_STEP: Bits = 0x3c23_d70a;

/// The moving parts of the display.
#[derive(Clone, Copy, PartialEq, Eq, Debug, Structural)]
pub struct Transport {
    pub playhead: Bits,
    pub meter_in: Bits,
    pub meter_out: Bits,
    /// The time under the pointer.
    pub cursor: Option<Bits>,
}

/// What a tick calls for.
#[derive(Clone, Copy, PartialEq, Eq, Debug, Structural)]
pub struct Ticked {
    /// The playhead moved, and the probe with it.
    pub moved: bool,
    /// The meters have to be drawn anew.
    pub repaint: bool,
}

/// A meter after a tick: it jumps up and falls slowly.
pub open spec fn metered(m: Bits, peak: Bits) -> Bits {
    let v = fadd(fmul(fmax(m, peak), METER_KEEPS), fmul(peak, METER_TAKES));
    if less(v, METER_REST) {
        0
    } else {
        v
    }
}

fn meter(m: Bits, peak: Bits) -> (r: Bits)
    ensures
        r == metered(m, peak),
{
    let v: Bits = add_to(multiply(larger(m, peak), METER_KEEPS), multiply(peak, METER_TAKES));
    if less_than(v, METER_REST) {
        0
    } else {
        v
    }
}

/// Do two numbers differ by more than `d`?
pub open spec fn differ(a: Bits, b: Bits, d: Bits) -> bool {
    less(d, fabs(fsub(a, b)))
}

fn differs(a: Bits, b: Bits, d: Bits) -> (r: bool)
    ensures
        r == differ(a, b, d),
{
    less_than(d, absolute(subtract(a, b)))
}

pub open spec fn cursor_moves(from: Option<Bits>, to: Option<Bits>, duration: Option<Bits>) -> bool {
    let step = match duration {
        Some(d) => fdiv(d, MARK_STEPS),
        None => MARK_STEP,
    };
    match (from, to) {
        (Some(a), Some(b)) => differ(a, b, step),
        (None, None) => false,
        _ => true,
    }
}

/// The frame of a time.
pub open spec fn probed(t: Bits, rate: u32) -> nat {
    at_most_index(floor_product(t, rate as nat))
}

impl Transport {
    /// Everything at rest at the beginning.
    pub fn new() -> (t: Transport)
        ensures
            t == (Transport { playhead: 0, meter_in: 0, meter_out: 0, cursor: None }),
    {
        Transport { playhead: 0, meter_in: 0, meter_out: 0, cursor: None }
    }

    /// Takes over the player's position and peaks. `line` says that the spectrum
    /// line is shown, which changes all the time.
    pub fn tick(&mut self, position: Bits, peak_in: Bits, peak_out: Bits, line: bool) -> (r: Ticked)
        ensures
            r.moved == differ(position, old(self).playhead, HEAD_STEP),
            *final(self) == (Transport {
                playhead: if r.moved {
                    position
                } else {
                    old(self).playhead
                },
                meter_in: metered(old(self).meter_in, peak_in),
                meter_out: metered(old(self).meter_out, peak_out),
                cursor: old(self).cursor,
            }),
            r.repaint == (line || differ(final(self).meter_in, old(self).meter_in, METER_REST) || differ(
                final(self).meter_out,
                old(self).meter_out,
                METER_REST,
            )),
    {
        let moved: bool = differs(position, self.playhead, HEAD_STEP);
        if moved {
            self.playhead = position;
        }
        let before_in: Bits = self.meter_in;
        let before_out: Bits = self.meter_out;
        self.meter_in = meter(before_in, peak_in);
        self.meter_out = meter(before_out, peak_out);
        let repaint: bool = differs(self.meter_in, before_in, METER_REST) || differs(
            self.meter_out,
            before_out,
            METER_REST,
        ) || line;
        Ticked { moved, repaint }
    }

    /// Are ticks needed? They are while the player plays and until the meters
    /// are at rest.
    pub fn needs_tick(&self, playing: bool) -> (r: bool)
        ensures
            r == (playing || less(0, self.meter_in) || less(0, self.meter_out)),
    {
        playing || less_than(0, self.meter_in) || less_than(0, self.meter_out)
    }

    /// Puts the playhead at a time, at the beginning for earlier ones.
    pub fn seek(&mut self, t: Bits)
        ensures
            *final(self) == (Transport { playhead: not_negative(t), ..*old(self) }),
    {
        self.playhead = at_least_zero(t);
    }

    /// Goes back to the beginning.
    pub fn stop(&mut self)
        ensures
            *final(self) == (Transport { playhead: 0, ..*old(self) }),
    {
        self.playhead = 0;
    }

    /// Moves the mark under the pointer, unless by too little to be seen. Says
    /// whether it moved.
    pub fn hover(&mut self, t: Option<Bits>, duration: Option<Bits>) -> (r: bool)
        ensures
            r == cursor_moves(old(self).cursor, t, duration),
            *final(self) == (Transport {
                cursor: if r {
                    t
                } else {
                    old(self).cursor
                },
                ..*old(self)
            }),
    {
        let step: Bits = match duration {
            Some(d) => divide_by(d, MARK_STEPS),
            None => MARK_STEP,
        };
        let changed: bool = match (self.cursor, t) {
            (Some(a), Some(b)) => differs(a, b, step),
            (None, None) => false,
            _ => true,
        };
        if changed {
            self.cursor = t;
        }
        changed
    }

    /// The frame that the probe looks at.
    pub fn probe_frame(&self, rate: u32) -> (f: usize)
        ensures
            f == probed(self.playhead, rate),
    {
        floor_times(self.playhead, rate as u64)
    }
}

pub open spec fn far(a: usize, b: usize) -> bool {
    a - b >= SPECTRUM_FFT_SIZE / 16 || b - a >= SPECTRUM_FFT_SIZE / 16
}

/// Does the spectrum line have to be computed anew? It does when there is none,
/// or when the probe has moved by a sixteenth of its window.
pub fn line_is_stale(computed_at: Option<usize>, has_line: bool, frame: usize) -> (r: bool)
    ensures
        r == (!has_line || computed_at is None || far(frame, computed_at->0)),
{
    if !has_line {
        return true;
    }
    match computed_at {
        None => true,
        Some(prev) => {
            let apart: usize = if frame < prev {
                prev - frame
            } else {
                frame - prev
            };
            apart >= SPECTRUM_FFT_SIZE / 16
        },
    }
}

// ---- Laws -------------------------------------------------------------------

/// In silence a meter never rises.
pub proof fn law_silent_meter_falls(m: Bits)
    requires
        is_finite(m),
        !negative(m),
    ensures
        at_most(metered(m, 0), m),
{
    lemma_shares();
    lemma_zero(0);
    lemma_zero(m);
    assert(magnitude(fmax(m, 0)) == magnitude(m));
    let kept = fmul(fmax(m, 0), METER_KEEPS);
    lemma_scaled_down(fmax(m, 0), METER_KEEPS);
    lemma_scaled_down(0, METER_TAKES);
    lemma_plus_zero(kept, fmul(0, METER_TAKES));
}

proof fn lemma_shares()
    ensures
        magnitude(METER_KEEPS) <= pow2(149),
        magnitude(METER_TAKES) <= pow2(149),
{
    lemma2_to64();
    lemma_pow2_adds(23, 126);
    assert(unsigned(ONE) == ONE && unsigned(METER_KEEPS) == METER_KEEPS && unsigned(METER_TAKES)
        == METER_TAKES);
    assert(last_digit(ONE) == 126 && significand(ONE) == 0x80_0000);
    lemma_magnitude_order(METER_KEEPS, ONE);
    lemma_magnitude_order(METER_TAKES, ONE);
}

/// The probe looks at the frame of its time: the seconds times the rate without the
/// fraction, up to rounding.
pub proof fn law_probe_at_its_time(t: Bits, rate: u32)
    requires
        is_finite(t),
        !negative(t),
        rate != 0,
        value(t) * rate <= 0x4000_0000 * one(),
    ensures
        ({
            let f = probed(t, rate);
            let x = value(t) * rate;
            &&& (f * one()) * 0x10_0000 <= x * 0x10_0001 + one()
            &&& x * 0xf_ffff <= ((f + 1) * one()) * 0x10_0000 + one()
        }),
{
    law_frame_of_time(t, rate, (usize::MAX + 1) as nat);
}

/// A tick that finds the player where the playhead stands moves nothing.
pub proof fn law_resting_head_stays(position: Bits)
    requires
        is_finite(position),
    ensures
        !differ(position, position, HEAD_STEP),
{
    lemma_negated(position);
    let d = fsub(position, position);
    lemma_sum(position, negated(position));
    lemma2_to64();
    lemma_nearest_bounds(0, 24);
    lemma_pow2_pos(277);
    lemma_zero(d);
    lemma_zero(HEAD_STEP);
    lemma_zero(fabs(d));
}

} // verus!
