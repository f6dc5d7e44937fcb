//! The waveform canvas: where its parts lie, and what the pointer does there.
//!
//! From top to bottom the canvas holds a time ruler, the waveform, an overview
//! strip of the whole file, the peak meters, and a panel for the spectrum. The
//! painting code and the hit tests both take their rectangles from here, so a
//! control cannot drift away from its click target.

use vstd::prelude::*;
use crate::arith::{number, from_whole};
use crate::single::TWO;
use crate::single::{Bits, ONE, at_most, is_at_most, clamped, clamp, floor_product, floor_times};
use crate::scalar::{fadd, fsub, fmul, fdiv, fmax, fmin};
use crate::scalar::{add_to, subtract, multiply, divide_by, larger, smaller};
use crate::scalar::lemma_zero_one;

verus! {

// ---- Sizes, in pixels -------------------------------------------------------

/// Width of the level ruler.
pub const DB_RULER_W: Bits = 0x4230_0000;
/// Height of the time ruler.
pub const TIME_RULER_H: Bits = 0x41b0_0000;
/// Height of the overview strip under the waveform.
pub const OVERVIEW_H: Bits = 0x41b0_0000;
/// Height of the peak meters.
pub const METER_H: Bits = 0x4190_0000;
/// The share of the canvas that the spectrum panel takes.
pub const FFT_PANEL_FRACTION: Bits = 0x3f00_0000;
/// Height that the spectrum panel leaves to the waveform.
pub const LEFT_FOR_WAVE: Bits = 0x4270_0000;
/// Height that the spectrum panel wants at least.
pub const FFT_PANEL_MIN: Bits = 0x42f0_0000;
/// A spectrum panel of this height or less is not shown.
pub const FFT_PANEL_HIDDEN: Bits = 0x4120_0000;

/// Padding inside the panel of the correlation curve.
pub const CORR_PAD_L: Bits = 0x41d0_0000;
pub const CORR_PAD_R: Bits = 0x4100_0000;
pub const CORR_PAD_T: Bits = 0x4190_0000;
pub const CORR_PAD_B: Bits = 0x4160_0000;

/// The goniometer takes at most this share of the panel's width.
pub const GONIO_SHARE: Bits = 0x3ecc_cccd;
pub const GONIO_MIN_W: Bits = 0x4270_0000;
pub const CURVE_MIN_W: Bits = 0x4220_0000;

/// Size and margins of the mono badge.
pub const MONO_BADGE_W: Bits = 0x41f0_0000;
pub const MONO_BADGE_H: Bits = 0x4190_0000;
pub const BADGE_RIGHT: Bits = 0x40c0_0000;
pub const BADGE_TOP: Bits = 0x4040_0000;

/// Height of the flags on splits and trim handles.
pub const FLAG_H: Bits = 0x4160_0000;
/// Reach of a trim handle beside its line, and on the side of its flag.
pub const LINE_SLOP: Bits = 0x40c0_0000;
pub const FLAG_REACH: Bits = 0x4170_0000;
/// Reach of a split line, and of its flag.
pub const SPLIT_REACH: Bits = 0x40a0_0000;
pub const SPLIT_FLAG_REACH: Bits = 0x4120_0000;
/// Reach of the guide line.
pub const GUIDE_REACH: Bits = 0x40a0_0000;
/// Pixels that one sample must take for a click to repair it.
pub const REPAIR_WIDTH: Bits = 0x4040_0000;
/// Pixels that the pointer moves before the hover time is sent again.
pub const HOVER_STEP: Bits = 0x4000_0000;

/// Pixels that a trackpad counts for one line of the wheel.
pub const LINE_PIXELS: Bits = 0x41f0_0000;
/// The least sideways movement of the wheel that pans.
pub const PAN_LEAST: Bits = 0x3c23_d70a;
/// The part of the window that one line of the wheel pans.
pub const PAN_STEP: Bits = 0x3d4c_cccd;
/// The least part of the curve that counts as a selected band.
pub const BAND_LEAST: Bits = 0x3b83_126f;

/// A thousandth.
pub const THOUSANDTH: Bits = 0x3a83_126f;
/// The lowest frequency of the correlation curve.
pub const LOWEST_HZ: Bits = 0x41a0_0000;

/// The spectrum panel is hidden, shows the spectrogram, or shows the phase.
pub const MODE_OFF: u8 = 0;
pub const MODE_SPECTROGRAM: u8 = 2;
pub const MODE_PHASE: u8 = 3;

// ---- Layout -----------------------------------------------------------------

/// A rectangle on the canvas.
#[derive(Clone, Copy, PartialEq, Eq, Debug, Structural)]
pub struct Rect {
    pub x: Bits,
    pub y: Bits,
    pub w: Bits,
    pub h: Bits,
}

impl Rect {
    /// Is the point inside or on the border?
    pub open spec fn covers(self, px: Bits, py: Bits) -> bool {
        &&& at_most(self.x, px)
        &&& at_most(px, fadd(self.x, self.w))
        &&& at_most(self.y, py)
        &&& at_most(py, fadd(self.y, self.h))
    }

    /// Where along the width the point lies, from zero to one.
    pub open spec fn along(self, px: Bits) -> Bits {
        clamped(fdiv(fsub(px, self.x), fmax(self.w, ONE)), 0, ONE)
    }

    /// Is the point inside or on the border?
    pub fn contains(&self, px: Bits, py: Bits) -> (r: bool)
        ensures
            r == self.covers(px, py),
    {
        is_at_most(self.x, px) && is_at_most(px, add_to(self.x, self.w)) && is_at_most(self.y, py)
            && is_at_most(py, add_to(self.y, self.h))
    }

    /// Where along the width the point lies, from zero to one.
    pub fn fraction(&self, px: Bits) -> (r: Bits)
        ensures
            r == self.along(px),
    {
        proof {
            lemma_zero_one();
        }
        clamp(divide_by(subtract(px, self.x), larger(self.w, ONE)), 0, ONE)
    }
}

/// What the canvas shows, as far as layout and pointer are concerned.
#[derive(Clone, Copy, PartialEq, Eq, Debug, Structural)]
pub struct Waveform {
    /// Length of the file in seconds.
    pub duration: Bits,
    pub zoom: Bits,
    /// The second at the left edge.
    pub scroll: Bits,
    pub sample_rate: u32,
    pub show_db_ruler: bool,
    pub show_time_ruler: bool,
    /// What the spectrum panel shows.
    pub fft_mode: u8,
    /// Number of bins of the correlation curve.
    pub band_bins: usize,
    /// Amplitude of the guide line, from zero to one.
    pub guide_amp: Option<Bits>,
    pub trim_start: Option<Bits>,
    pub trim_end: Option<Bits>,
    pub click_repair_mode: bool,
}

/// The mark of a click that was found: an upright line with a tick on top.
#[derive(Clone, Copy, PartialEq, Eq, Debug, Structural)]
pub struct ClickMark {
    pub x: Bits,
    pub tick_w: Bits,
    pub tick_h: Bits,
    /// How strong tick and line are, from zero to one.
    pub tick_alpha: Bits,
    pub line_alpha: Bits,
}

/// The tick of a click: 2.0 wide, 12.0 high and at 0.85, its line at 0.22.
pub const TICK_W: Bits = 0x4000_0000;
pub const TICK_H: Bits = 0x4140_0000;
pub const TICK_ALPHA: Bits = 0x3f59_999a;
pub const TICK_LINE_ALPHA: Bits = 0x3e61_47ae;
/// That of the click one is at: 2.5 wide, 18.0 high and at 1.0, its line at 0.5.
pub const CURRENT_TICK_W: Bits = 0x4020_0000;
pub const CURRENT_TICK_H: Bits = 0x4190_0000;
pub const CURRENT_TICK_ALPHA: Bits = 0x3f80_0000;
pub const CURRENT_LINE_ALPHA: Bits = 0x3f00_0000;

/// The mark of a click at `x`. The click one is at is marked stronger.
pub open spec fn mark_at(x: Bits, current: bool) -> ClickMark {
    if current {
        ClickMark {
            x,
            tick_w: CURRENT_TICK_W,
            tick_h: CURRENT_TICK_H,
            tick_alpha: CURRENT_TICK_ALPHA,
            line_alpha: CURRENT_LINE_ALPHA,
        }
    } else {
        ClickMark {
            x,
            tick_w: TICK_W,
            tick_h: TICK_H,
            tick_alpha: TICK_ALPHA,
            line_alpha: TICK_LINE_ALPHA,
        }
    }
}

/// The goniometer's column within the phase panel.
pub open spec fn gonio(panel: Rect) -> Rect {
    let w = fmax(fmin(panel.h, fmul(panel.w, GONIO_SHARE)), GONIO_MIN_W);
    let curve = fmax(fsub(panel.w, w), CURVE_MIN_W);
    Rect { x: fadd(panel.x, curve), y: panel.y, w, h: panel.h }
}

/// The mono badge, in the top right corner of the goniometer's column.
pub open spec fn badge(column: Rect) -> Rect {
    Rect {
        x: fsub(fsub(fadd(column.x, column.w), MONO_BADGE_W), BADGE_RIGHT),
        y: fadd(column.y, BADGE_TOP),
        w: MONO_BADGE_W,
        h: MONO_BADGE_H,
    }
}

/// The goniometer's column within the phase panel.
pub fn gonio_rect(panel: Rect) -> (r: Rect)
    ensures
        r == gonio(panel),
{
    let w: Bits = larger(smaller(panel.h, multiply(panel.w, GONIO_SHARE)), GONIO_MIN_W);
    let curve: Bits = larger(subtract(panel.w, w), CURVE_MIN_W);
    Rect { x: add_to(panel.x, curve), y: panel.y, w, h: panel.h }
}

/// The mono badge, in the top right corner of the goniometer's column.
pub fn mono_badge_rect(column: Rect) -> (r: Rect)
    ensures
        r == badge(column),
{
    Rect {
        x: subtract(subtract(add_to(column.x, column.w), MONO_BADGE_W), BADGE_RIGHT),
        y: add_to(column.y, BADGE_TOP),
        w: MONO_BADGE_W,
        h: MONO_BADGE_H,
    }
}

impl Waveform {
    /// Seconds in the visible window.
    pub open spec fn visible(self) -> Bits {
        fmax(fdiv(self.duration, fmax(self.zoom, THOUSANDTH)), THOUSANDTH)
    }

    pub open spec fn left(self) -> Bits {
        if self.show_db_ruler {
            DB_RULER_W
        } else {
            0
        }
    }

    pub open spec fn top(self) -> Bits {
        if self.show_time_ruler {
            TIME_RULER_H
        } else {
            0
        }
    }

    /// Height of the spectrum panel: half of what rulers and meters leave, but
    /// no less than its minimum where the waveform can spare it.
    pub open spec fn panel_height(self, canvas_h: Bits) -> Bits {
        if self.fft_mode == MODE_OFF {
            0
        } else {
            let usable = fmax(fsub(fsub(canvas_h, self.top()), METER_H), ONE);
            let most = fmax(fsub(usable, LEFT_FOR_WAVE), ONE);
            clamped(fmul(usable, FFT_PANEL_FRACTION), fmin(FFT_PANEL_MIN, most), most)
        }
    }

    /// Height of everything below the waveform.
    pub open spec fn bottom(self, canvas_h: Bits) -> Bits {
        fadd(fadd(OVERVIEW_H, METER_H), self.panel_height(canvas_h))
    }

    pub open spec fn overview_top(self, canvas_h: Bits) -> Bits {
        fsub(canvas_h, self.bottom(canvas_h))
    }

    pub open spec fn meter_top(self, canvas_h: Bits) -> Bits {
        fadd(self.overview_top(canvas_h), OVERVIEW_H)
    }

    /// The waveform itself.
    pub open spec fn area(self, canvas_w: Bits, canvas_h: Bits) -> Rect {
        Rect {
            x: self.left(),
            y: self.top(),
            w: fmax(fsub(canvas_w, self.left()), ONE),
            h: fmax(fsub(fsub(canvas_h, self.top()), self.bottom(canvas_h)), ONE),
        }
    }

    /// The overview strip, which needs a file.
    pub open spec fn overview(self, canvas_w: Bits, canvas_h: Bits) -> Option<Rect> {
        if at_most(self.duration, 0) {
            None
        } else {
            let a = self.area(canvas_w, canvas_h);
            Some(Rect { x: a.x, y: self.overview_top(canvas_h), w: a.w, h: OVERVIEW_H })
        }
    }

    /// The spectrum panel, unless it is off or there is no room for it.
    pub open spec fn panel(self, canvas_w: Bits, canvas_h: Bits) -> Option<Rect> {
        let y = fadd(self.meter_top(canvas_h), METER_H);
        let h = fsub(canvas_h, y);
        if self.fft_mode == MODE_OFF || at_most(h, FFT_PANEL_HIDDEN) {
            None
        } else {
            let a = self.area(canvas_w, canvas_h);
            Some(Rect { x: a.x, y, w: a.w, h })
        }
    }

    /// The panel while it shows the phase.
    pub open spec fn phase_panel(self, canvas_w: Bits, canvas_h: Bits) -> Option<Rect> {
        if self.fft_mode != MODE_PHASE {
            None
        } else {
            self.panel(canvas_w, canvas_h)
        }
    }

    /// The panel while it shows the spectrogram.
    pub open spec fn spectrogram(self, canvas_w: Bits, canvas_h: Bits) -> Option<Rect> {
        if self.fft_mode != MODE_SPECTROGRAM {
            None
        } else {
            self.panel(canvas_w, canvas_h)
        }
    }

    /// The plot of the correlation curve, inside its padding.
    pub open spec fn plot(self, canvas_w: Bits, canvas_h: Bits) -> Option<Rect> {
        match self.phase_panel(canvas_w, canvas_h) {
            None => None,
            Some(p) => {
                let w = fmax(fsub(gonio(p).x, p.x), CURVE_MIN_W);
                Some(
                    Rect {
                        x: fadd(p.x, CORR_PAD_L),
                        y: fadd(p.y, CORR_PAD_T),
                        w: fmax(fsub(fsub(w, CORR_PAD_L), CORR_PAD_R), ONE),
                        h: fmax(fsub(fsub(p.h, CORR_PAD_T), CORR_PAD_B), ONE),
                    },
                )
            },
        }
    }

    /// The lowest and the highest frequency of the correlation curve.
    pub open spec fn frequencies(self) -> Option<(Bits, Bits)> {
        if self.sample_rate == 0 || self.band_bins == 0 {
            None
        } else {
            let nyquist = fdiv(number(self.sample_rate as nat), TWO);
            Some((fmax(LOWEST_HZ, fdiv(nyquist, number(self.band_bins as nat))), nyquist))
        }
    }

    /// Is the point on the mono badge?
    pub open spec fn on_badge(self, canvas_w: Bits, canvas_h: Bits, px: Bits, py: Bits) -> bool {
        match self.phase_panel(canvas_w, canvas_h) {
            None => false,
            Some(p) => badge(gonio(p)).covers(px, py),
        }
    }

    /// Where a time lies in a waveform of that width.
    pub open spec fn place(self, t: Bits, w: Bits) -> Bits {
        fmul(fdiv(fsub(t, self.scroll), self.visible()), w)
    }

    /// The time at a place in a waveform of that width.
    pub open spec fn time(self, x: Bits, w: Bits) -> Bits {
        clamped(fadd(self.scroll, fmul(fdiv(x, w), self.visible())), 0, self.duration)
    }

    /// Seconds in the visible window.
    pub fn visible_duration(&self) -> (r: Bits)
        ensures
            r == self.visible(),
    {
        larger(divide_by(self.duration, larger(self.zoom, THOUSANDTH)), THOUSANDTH)
    }

    /// Width of the level ruler, if it is shown.
    pub fn left_inset(&self) -> (r: Bits)
        ensures
            r == self.left(),
    {
        if self.show_db_ruler {
            DB_RULER_W
        } else {
            0
        }
    }

    /// Height of the time ruler, if it is shown.
    pub fn top_inset(&self) -> (r: Bits)
        ensures
            r == self.top(),
    {
        if self.show_time_ruler {
            TIME_RULER_H
        } else {
            0
        }
    }

    /// Height of the spectrum panel.
    pub fn fft_panel_height(&self, canvas_h: Bits) -> (r: Bits)
        ensures
            r == self.panel_height(canvas_h),
    {
        if self.fft_mode == MODE_OFF {
            return 0;
        }
        let usable: Bits = larger(subtract(subtract(canvas_h, self.top_inset()), METER_H), ONE);
        let most: Bits = larger(subtract(usable, LEFT_FOR_WAVE), ONE);
        let least: Bits = smaller(FFT_PANEL_MIN, most);
        clamp(multiply(usable, FFT_PANEL_FRACTION), least, most)
    }

    /// Height of everything below the waveform.
    pub fn bottom_inset_h(&self, canvas_h: Bits) -> (r: Bits)
        ensures
            r == self.bottom(canvas_h),
    {
        add_to(add_to(OVERVIEW_H, METER_H), self.fft_panel_height(canvas_h))
    }

    /// Top edge of the overview strip.
    pub fn overview_y(&self, canvas_h: Bits) -> (r: Bits)
        ensures
            r == self.overview_top(canvas_h),
    {
        subtract(canvas_h, self.bottom_inset_h(canvas_h))
    }

    /// Top edge of the peak meters.
    pub fn meter_y(&self, canvas_h: Bits) -> (r: Bits)
        ensures
            r == self.meter_top(canvas_h),
    {
        add_to(self.overview_y(canvas_h), OVERVIEW_H)
    }

    /// The waveform itself.
    pub fn wave_area(&self, canvas_w: Bits, canvas_h: Bits) -> (r: Rect)
        ensures
            r == self.area(canvas_w, canvas_h),
    {
        let x: Bits = self.left_inset();
        let y: Bits = self.top_inset();
        Rect {
            x,
            y,
            w: larger(subtract(canvas_w, x), ONE),
            h: larger(subtract(subtract(canvas_h, y), self.bottom_inset_h(canvas_h)), ONE),
        }
    }

    /// The overview strip, which needs a file.
    pub fn overview_rect(&self, canvas_w: Bits, canvas_h: Bits) -> (r: Option<Rect>)
        ensures
            r == self.overview(canvas_w, canvas_h),
    {
        if is_at_most(self.duration, 0) {
            return None;
        }
        let a: Rect = self.wave_area(canvas_w, canvas_h);
        Some(Rect { x: a.x, y: self.overview_y(canvas_h), w: a.w, h: OVERVIEW_H })
    }

    /// The spectrum panel, unless it is off or there is no room for it.
    pub fn fft_panel_rect(&self, canvas_w: Bits, canvas_h: Bits) -> (r: Option<Rect>)
        ensures
            r == self.panel(canvas_w, canvas_h),
    {
        if self.fft_mode == MODE_OFF {
            return None;
        }
        let a: Rect = self.wave_area(canvas_w, canvas_h);
        let y: Bits = add_to(self.meter_y(canvas_h), METER_H);
        let h: Bits = subtract(canvas_h, y);
        if is_at_most(h, FFT_PANEL_HIDDEN) {
            return None;
        }
        Some(Rect { x: a.x, y, w: a.w, h })
    }

    /// The panel while it shows the phase.
    pub fn phase_panel_rect(&self, canvas_w: Bits, canvas_h: Bits) -> (r: Option<Rect>)
        ensures
            r == self.phase_panel(canvas_w, canvas_h),
    {
        if self.fft_mode != MODE_PHASE {
            return None;
        }
        self.fft_panel_rect(canvas_w, canvas_h)
    }

    /// The panel while it shows the spectrogram, the only view of the panel
    /// whose horizontal axis is time.
    pub fn spectrogram_rect(&self, canvas_w: Bits, canvas_h: Bits) -> (r: Option<Rect>)
        ensures
            r == self.spectrogram(canvas_w, canvas_h),
    {
        if self.fft_mode != MODE_SPECTROGRAM {
            return None;
        }
        self.fft_panel_rect(canvas_w, canvas_h)
    }

    /// The plot of the correlation curve, inside its padding.
    pub fn corr_plot_rect(&self, canvas_w: Bits, canvas_h: Bits) -> (r: Option<Rect>)
        ensures
            r == self.plot(canvas_w, canvas_h),
    {
        match self.phase_panel_rect(canvas_w, canvas_h) {
            None => None,
            Some(p) => {
                let w: Bits = larger(subtract(gonio_rect(p).x, p.x), CURVE_MIN_W);
                Some(
                    Rect {
                        x: add_to(p.x, CORR_PAD_L),
                        y: add_to(p.y, CORR_PAD_T),
                        w: larger(subtract(subtract(w, CORR_PAD_L), CORR_PAD_R), ONE),
                        h: larger(subtract(subtract(p.h, CORR_PAD_T), CORR_PAD_B), ONE),
                    },
                )
            },
        }
    }

    /// The lowest and the highest frequency of the correlation curve.
    pub fn corr_freq_range(&self) -> (r: Option<(Bits, Bits)>)
        ensures
            r == self.frequencies(),
    {
        if self.sample_rate == 0 || self.band_bins == 0 {
            return None;
        }
        let nyquist: Bits = divide_by(from_whole(self.sample_rate as u64), TWO);
        let lowest: Bits = larger(LOWEST_HZ, divide_by(nyquist, from_whole(self.band_bins as u64)));
        Some((lowest, nyquist))
    }

    /// Is the point on the mono badge?
    pub fn mono_badge_hit(&self, canvas_w: Bits, canvas_h: Bits, px: Bits, py: Bits) -> (r: bool)
        ensures
            r == self.on_badge(canvas_w, canvas_h, px, py),
    {
        match self.phase_panel_rect(canvas_w, canvas_h) {
            None => false,
            Some(p) => mono_badge_rect(gonio_rect(p)).contains(px, py),
        }
    }

    /// Where a time lies in a waveform of that width.
    pub fn t_to_x(&self, t: Bits, wave_w: Bits) -> (r: Bits)
        ensures
            r == self.place(t, wave_w),
    {
        multiply(divide_by(subtract(t, self.scroll), self.visible_duration()), wave_w)
    }

    /// Where the click at a frame lies, on a waveform that begins at `left`.
    pub open spec fn click_x(self, frame: usize, left: Bits, width: Bits) -> Bits {
        let t = fdiv(number(frame as nat), number(self.sample_rate as nat));
        fadd(left, self.place(t, width))
    }

    /// The marks of the first `n` clicks, of those that are in view.
    pub open spec fn marks(
        self,
        clicks: Seq<usize>,
        current: Option<usize>,
        left: Bits,
        width: Bits,
        n: int,
    ) -> Seq<ClickMark>
        decreases n,
    {
        if n <= 0 {
            Seq::empty()
        } else {
            let before = self.marks(clicks, current, left, width, n - 1);
            let x = self.click_x(clicks[n - 1], left, width);
            if at_most(left, x) && at_most(x, fadd(left, width)) {
                before.push(mark_at(x, current == Some((n - 1) as usize)))
            } else {
                before
            }
        }
    }

    /// The marks of the clicks that were found, given by their frames. `current` is
    /// the number of the one that one is at.
    pub fn click_marks(
        &self,
        clicks: &Vec<usize>,
        current: Option<usize>,
        left: Bits,
        width: Bits,
    ) -> (r: Vec<ClickMark>)
        ensures
            r@ == (if self.sample_rate == 0 {
                Seq::empty()
            } else {
                self.marks(clicks@, current, left, width, clicks@.len() as int)
            }),
    {
        let mut r: Vec<ClickMark> = Vec::new();
        if self.sample_rate == 0 {
            return r;
        }
        let rate: Bits = from_whole(self.sample_rate as u64);
        let right: Bits = add_to(left, width);
        let mut i: usize = 0;
        while i < clicks.len()
            invariant
                i <= clicks@.len(),
                rate == number(self.sample_rate as nat),
                right == fadd(left, width),
                r@ == self.marks(clicks@, current, left, width, i as int),
            decreases clicks@.len() - i,
        {
            let t: Bits = divide_by(from_whole(clicks[i] as u64), rate);
            let x: Bits = add_to(left, self.t_to_x(t, width));
            if is_at_most(left, x) && is_at_most(x, right) {
                let here: bool = match current {
                    Some(c) => c == i,
                    None => false,
                };
                if here {
                    r.push(
                        ClickMark {
                            x,
                            tick_w: CURRENT_TICK_W,
                            tick_h: CURRENT_TICK_H,
                            tick_alpha: CURRENT_TICK_ALPHA,
                            line_alpha: CURRENT_LINE_ALPHA,
                        },
                    );
                } else {
                    r.push(
                        ClickMark {
                            x,
                            tick_w: TICK_W,
                            tick_h: TICK_H,
                            tick_alpha: TICK_ALPHA,
                            line_alpha: TICK_LINE_ALPHA,
                        },
                    );
                }
            }
            i = i + 1;
        }
        r
    }

    /// The time at a place in a waveform of that width.
    pub fn x_to_t(&self, x_in_area: Bits, wave_w: Bits) -> (r: Bits)
        requires
            at_most(0, self.duration),
        ensures
            r == self.time(x_in_area, wave_w),
    {
        let along: Bits = multiply(divide_by(x_in_area, wave_w), self.visible_duration());
        clamp(add_to(self.scroll, along), 0, self.duration)
    }

    /// The part of an envelope of `n` points that is visible.
    pub fn visible_envelope_slice(&self, n: usize) -> (r: (usize, usize))
        ensures
            r == self.visible_points(n),
            r.0 <= r.1 <= n,
    {
        let start: usize = floor_times(divide_by(self.scroll, self.duration), n as u64);
        let right: Bits = add_to(self.scroll, self.visible_duration());
        let end: usize = floor_times(divide_by(right, self.duration), n as u64);
        let a: usize = if start < n {
            start
        } else {
            n
        };
        let b: usize = if end < n {
            end
        } else {
            n
        };
        if b < a {
            (a, a)
        } else {
            (a, b)
        }
    }

    /// The part of an envelope of `n` points that is visible.
    pub open spec fn visible_points(self, n: usize) -> (usize, usize) {
        let start = floor_product(fdiv(self.scroll, self.duration), n as nat);
        let end = floor_product(fdiv(fadd(self.scroll, self.visible()), self.duration), n as nat);
        let a = if start < n {
            start as usize
        } else {
            n
        };
        let b = if end < n {
            end as usize
        } else {
            n
        };
        (a, if b < a { a } else { b })
    }
}

} // verus!
