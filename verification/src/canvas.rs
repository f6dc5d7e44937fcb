//! What the pointer does on the canvas.
//!
//! A press is offered to the parts of the canvas in a fixed order; the first
//! that takes it keeps the drag until the button comes up. The editor sees the
//! gesture only through the events that come out here.

use vstd::prelude::*;
use crate::arith::{number, from_whole};
use crate::single::{HALF, MILLIONTH};
use crate::single::{Bits, ONE, is_nan, less, less_than, at_most, is_at_most, clamped, clamp, at_most_index};
use crate::ruler::{guide_heights, guide_lines};
use crate::scalar::{fadd, fsub, fmul, fdiv, fmax, fabs, negated, rounded};
use crate::scalar::{add_to, subtract, multiply, divide_by, larger, absolute, neg, round};
use crate::waveform::{Waveform, Rect, FLAG_H, LINE_SLOP, FLAG_REACH, SPLIT_REACH, SPLIT_FLAG_REACH, GUIDE_REACH};
use crate::waveform::{REPAIR_WIDTH, HOVER_STEP, LINE_PIXELS, PAN_LEAST, PAN_STEP, BAND_LEAST};
use crate::zones::{ZoneMap, zone_of};

verus! {

/// One of the two handles that bound the exported part.
#[derive(Clone, Copy, PartialEq, Eq, Debug, Structural)]
pub enum TrimHandle {
    Start,
    End,
}

/// A stretch of the correlation curve, as fractions of its width.
#[derive(Clone, Copy, PartialEq, Eq, Debug, Structural)]
pub struct Band {
    pub lo: Bits,
    pub hi: Bits,
}

/// What a gesture asks of the editor. Times are in seconds.
#[derive(Clone, Copy, PartialEq, Eq, Debug, Structural)]
pub enum CanvasEvent {
    AddSplit(Bits),
    SelectSplit(usize),
    MoveSplit(usize, Bits),
    SelectZone(usize),
    Seek(Bits),
    Hover(Option<Bits>),
    /// Zoom by 1.25 for every line that the wheel turned, around a time.
    Zoom(Bits, Bits),
    Pan(Bits),
    /// A zone, the split under the pointer if there is one, and the pointer.
    RightClickZone(usize, Option<usize>, Bits, Bits),
    /// The guide line was dragged to this amplitude.
    DragGuide(Bits),
    MoveTrimStart(Bits),
    MoveTrimEnd(Bits),
    /// Repair the click at a frame.
    RepairClick(usize),
    ToggleMonoFold,
    /// A band of the correlation curve, or none after a click without a drag.
    SelectBand(Option<Band>),
    /// Seek, and bring the view there.
    NavigateTo(Bits),
}

/// Where a pan began: the pointer and the scroll position.
#[derive(Clone, Copy, PartialEq, Eq, Debug, Structural)]
pub struct Grab {
    pub x: Bits,
    pub scroll: Bits,
}

/// The gesture in progress.
#[derive(Clone, Copy, PartialEq, Eq, Debug, Structural)]
pub struct DragState {
    /// The split that follows the pointer.
    pub dragging: Option<usize>,
    pub dragging_guide: bool,
    pub dragging_trim: Option<TrimHandle>,
    pub dragging_overview: bool,
    pub dragging_sgram: bool,
    pub panning_from: Option<Grab>,
    /// Where along the correlation curve a band begins.
    pub band_drag_from: Option<Bits>,
    /// Where the hover time was last sent.
    pub last_hover_px: Option<Bits>,
}

/// How far the wheel turned.
#[derive(Clone, Copy, PartialEq, Eq, Debug, Structural)]
pub enum Scroll {
    Lines(Bits, Bits),
    Pixels(Bits, Bits),
}

/// What the pointer did.
#[derive(Clone, Copy, PartialEq, Eq, Debug, Structural)]
pub enum Pointer {
    Wheel(Scroll),
    MiddleDown,
    MiddleUp,
    RightDown,
    LeftDown,
    Moved,
    LeftUp,
    Other,
}

/// A point on a canvas of some size.
#[derive(Clone, Copy, PartialEq, Eq, Debug, Structural)]
pub struct Place {
    pub canvas_w: Bits,
    pub canvas_h: Bits,
    pub x: Bits,
    pub y: Bits,
}

/// What comes of a gesture: the gesture's new state, whether the event was
/// taken, and what it asks of the editor.
#[derive(Clone, Copy, PartialEq, Eq, Debug, Structural)]
pub struct Outcome {
    pub state: DragState,
    pub captured: bool,
    pub event: Option<CanvasEvent>,
}

/// What lies under the pointer.
#[derive(Clone, Copy, PartialEq, Eq, Debug, Structural)]
pub struct Spot {
    /// The waveform's rectangle.
    pub area: Rect,
    /// The pointer, counted from the corner of that rectangle.
    pub rx: Bits,
    pub ry: Bits,
    pub in_wave: bool,
    pub in_sgram: bool,
    /// The time under the pointer; the left edge where there is no time axis.
    pub t: Bits,
    /// At the top or the bottom of the waveform, where the flags are.
    pub in_flags: bool,
}

// ---- Model ------------------------------------------------------------------

/// No gesture in progress.
pub open spec fn idle() -> DragState {
    DragState {
        dragging: None,
        dragging_guide: false,
        dragging_trim: None,
        dragging_overview: false,
        dragging_sgram: false,
        panning_from: None,
        band_drag_from: None,
        last_hover_px: None,
    }
}

pub open spec fn took(state: DragState, event: Option<CanvasEvent>) -> Outcome {
    Outcome { state, captured: true, event }
}

pub open spec fn passed(state: DragState) -> Outcome {
    Outcome { state, captured: false, event: None }
}

pub open spec fn in_rect(r: Option<Rect>, px: Bits, py: Bits) -> bool {
    match r {
        Some(x) => x.covers(px, py),
        None => false,
    }
}

pub open spec fn spot(w: Waveform, p: Place) -> Spot {
    let area = w.area(p.canvas_w, p.canvas_h);
    let rx = fsub(p.x, area.x);
    let ry = fsub(p.y, area.y);
    let in_wave = at_most(0, rx) && at_most(0, ry) && at_most(rx, area.w) && at_most(ry, area.h);
    let in_sgram = in_rect(w.spectrogram(p.canvas_w, p.canvas_h), p.x, p.y);
    Spot {
        area,
        rx,
        ry,
        in_wave,
        in_sgram,
        t: if in_wave || in_sgram {
            w.time(rx, area.w)
        } else {
            w.scroll
        },
        in_flags: in_wave && (less(ry, FLAG_H) || less(fsub(area.h, FLAG_H), ry)),
    }
}

/// The wheel, in lines.
pub open spec fn lines(s: Scroll) -> (Bits, Bits) {
    match s {
        Scroll::Lines(x, y) => (x, y),
        Scroll::Pixels(x, y) => (fdiv(x, LINE_PIXELS), fdiv(y, LINE_PIXELS)),
    }
}

/// Sideways the wheel pans, otherwise it zooms. The larger movement decides.
pub open spec fn wheel_turned(w: Waveform, s: DragState, at: Spot, by: Scroll) -> Outcome {
    let (dx, dy) = lines(by);
    if !at.in_wave && !at.in_sgram {
        passed(s)
    } else if less(fabs(dy), fabs(dx)) && less(PAN_LEAST, fabs(dx)) {
        took(s, Some(CanvasEvent::Pan(fmul(fmul(negated(dx), PAN_STEP), w.visible()))))
    } else if less(0, dy) || less(dy, 0) {
        took(s, Some(CanvasEvent::Zoom(dy, at.t)))
    } else {
        passed(s)
    }
}

pub open spec fn split_reach(at: Spot) -> Bits {
    if at.in_flags {
        SPLIT_FLAG_REACH
    } else {
        SPLIT_REACH
    }
}

/// Is a split at `t` within reach of the pointer?
pub open spec fn reaches(w: Waveform, at: Spot, t: Bits) -> bool {
    less(fabs(fsub(at.rx, w.place(t, at.area.w))), split_reach(at))
}

/// The first split within reach, counted from `from`.
pub open spec fn split_hit(w: Waveform, at: Spot, splits: Seq<Bits>, from: nat) -> Option<usize>
    decreases splits.len() - from,
{
    if from >= splits.len() {
        None
    } else if reaches(w, at, splits[from as int]) {
        Some(from as usize)
    } else {
        split_hit(w, at, splits, from + 1)
    }
}

pub open spec fn right_pressed(
    w: Waveform,
    s: DragState,
    at: Spot,
    p: Place,
    splits: Seq<Bits>,
) -> Outcome {
    if !at.in_wave {
        passed(s)
    } else {
        took(
            s,
            Some(
                CanvasEvent::RightClickZone(
                    zone_of(splits, at.t) as usize,
                    split_hit(w, at, splits, 0),
                    p.x,
                    p.y,
                ),
            ),
        )
    }
}

/// Is the pointer on a trim handle? The flag points into the kept part, and the
/// handle reaches farther on that side.
pub open spec fn on_handle(w: Waveform, at: Spot, handle: TrimHandle) -> bool {
    let reach = if at.in_flags {
        FLAG_REACH
    } else {
        LINE_SLOP
    };
    match handle {
        TrimHandle::Start => match w.trim_start {
            None => false,
            Some(t) => {
                let x = w.place(t, at.area.w);
                at_most(fsub(x, LINE_SLOP), at.rx) && at_most(at.rx, fadd(x, reach))
            },
        },
        TrimHandle::End => match w.trim_end {
            None => false,
            Some(t) => {
                let x = w.place(t, at.area.w);
                at_most(fsub(x, reach), at.rx) && at_most(at.rx, fadd(x, LINE_SLOP))
            },
        },
    }
}

/// Is the pointer on the guide line, above or below the middle?
pub open spec fn on_guide(w: Waveform, at: Spot, y: Bits) -> bool {
    match w.guide_amp {
        None => false,
        Some(amp) => {
            let (upper, lower) = guide_heights(amp, at.area);
            less(fabs(fsub(y, upper)), GUIDE_REACH) || less(fabs(fsub(y, lower)), GUIDE_REACH)
        },
    }
}

/// The frame that a click repairs, where single samples can be told apart.
pub open spec fn repair_frame(w: Waveform, at: Spot) -> Option<usize> {
    let rate = number(w.sample_rate as nat);
    let width = fdiv(at.area.w, fmax(fmul(w.visible(), rate), ONE));
    if w.click_repair_mode && at_most(REPAIR_WIDTH, width) {
        Some(at_most_index(rounded(fmul(at.t, rate))) as usize)
    } else {
        None
    }
}

/// A press of the left button below the waveform: on the overview strip, on the
/// correlation curve, on the spectrogram, or on the mono badge.
pub open spec fn pressed_below(w: Waveform, s: DragState, at: Spot, p: Place) -> Outcome {
    let strip = w.overview(p.canvas_w, p.canvas_h);
    let plot = w.plot(p.canvas_w, p.canvas_h);
    if in_rect(strip, p.x, p.y) {
        took(
            DragState { dragging_overview: true, ..s },
            Some(CanvasEvent::NavigateTo(fmul(strip->0.along(p.x), w.duration))),
        )
    } else if in_rect(plot, p.x, p.y) {
        took(DragState { band_drag_from: Some(plot->0.along(p.x)), ..s }, None)
    } else if at.in_sgram {
        took(
            DragState { dragging_sgram: true, ..s },
            Some(CanvasEvent::Seek(clamped(at.t, 0, w.duration))),
        )
    } else if w.on_badge(p.canvas_w, p.canvas_h, p.x, p.y) {
        took(s, Some(CanvasEvent::ToggleMonoFold))
    } else {
        passed(s)
    }
}

/// A press of the left button on the waveform: on a trim handle, on the guide,
/// on a split, on a click to repair, or on nothing.
pub open spec fn pressed_on_wave(
    w: Waveform,
    s: DragState,
    at: Spot,
    p: Place,
    splits: Seq<Bits>,
) -> Outcome {
    if on_handle(w, at, TrimHandle::Start) {
        took(DragState { dragging_trim: Some(TrimHandle::Start), ..s }, None)
    } else if on_handle(w, at, TrimHandle::End) {
        took(DragState { dragging_trim: Some(TrimHandle::End), ..s }, None)
    } else if on_guide(w, at, p.y) {
        took(DragState { dragging_guide: true, ..s }, None)
    } else {
        match split_hit(w, at, splits, 0) {
            Some(i) => took(
                DragState { dragging: Some(i), ..s },
                Some(CanvasEvent::SelectSplit(i)),
            ),
            None => match repair_frame(w, at) {
                Some(f) => took(s, Some(CanvasEvent::RepairClick(f))),
                None => took(s, Some(CanvasEvent::Seek(at.t))),
            },
        }
    }
}

pub open spec fn left_pressed(
    w: Waveform,
    s: DragState,
    at: Spot,
    p: Place,
    splits: Seq<Bits>,
) -> Outcome {
    let below = pressed_below(w, s, at, p);
    if below.captured || !at.in_wave {
        below
    } else {
        pressed_on_wave(w, s, at, p, splits)
    }
}

/// The amplitude at a height of the waveform.
pub open spec fn amplitude_at(y: Bits, h: Bits) -> Bits {
    let mid = fmul(h, HALF);
    clamped(fdiv(fabs(fsub(mid, y)), fmax(mid, ONE)), MILLIONTH, ONE)
}

/// The band between the place where a drag began and where the pointer is.
pub open spec fn band(anchor: Bits, here: Bits) -> Option<Band> {
    if less(BAND_LEAST, fabs(fsub(here, anchor))) {
        if at_most(anchor, here) {
            Some(Band { lo: anchor, hi: here })
        } else {
            Some(Band { lo: here, hi: anchor })
        }
    } else {
        None
    }
}

/// The band that is being drawn, where the curve has frequencies.
pub open spec fn drawn_band(w: Waveform, p: Place, anchor: Bits) -> Option<Band> {
    match w.plot(p.canvas_w, p.canvas_h) {
        Some(plot) => if w.frequencies() is Some {
            band(anchor, plot.along(p.x))
        } else {
            None
        },
        None => None,
    }
}

/// The pointer moves without a drag: the hover time follows it.
pub open spec fn hovered(s: DragState, at: Spot) -> Outcome {
    if !at.in_wave && !at.in_sgram {
        if s.last_hover_px is Some {
            Outcome {
                state: DragState { last_hover_px: None, ..s },
                captured: false,
                event: Some(CanvasEvent::Hover(None)),
            }
        } else {
            passed(s)
        }
    } else if s.last_hover_px matches Some(last) && !at_most(HOVER_STEP, fabs(fsub(last, at.rx))) {
        passed(s)
    } else {
        Outcome {
            state: DragState { last_hover_px: Some(at.rx), ..s },
            captured: false,
            event: Some(CanvasEvent::Hover(Some(at.t))),
        }
    }
}

/// The pointer moves: whatever is being dragged follows it.
pub open spec fn moved(w: Waveform, s: DragState, at: Spot, p: Place) -> Outcome {
    let strip = w.overview(p.canvas_w, p.canvas_h);
    if s.dragging_overview && strip is Some {
        took(s, Some(CanvasEvent::NavigateTo(fmul(strip->0.along(p.x), w.duration))))
    } else if s.dragging_trim is Some {
        let t = clamped(at.t, 0, w.duration);
        took(
            s,
            Some(
                match s.dragging_trim->0 {
                    TrimHandle::Start => CanvasEvent::MoveTrimStart(t),
                    TrimHandle::End => CanvasEvent::MoveTrimEnd(t),
                },
            ),
        )
    } else if s.dragging_guide {
        took(s, Some(CanvasEvent::DragGuide(amplitude_at(at.ry, at.area.h))))
    } else if s.panning_from is Some {
        let g = s.panning_from->0;
        let by = fmul(fdiv(fsub(at.rx, g.x), at.area.w), w.visible());
        took(s, Some(CanvasEvent::Pan(fsub(fsub(g.scroll, by), w.scroll))))
    } else if s.dragging is Some {
        took(s, Some(CanvasEvent::MoveSplit(s.dragging->0, at.t)))
    } else if s.band_drag_from is Some {
        match drawn_band(w, p, s.band_drag_from->0) {
            Some(b) => took(s, Some(CanvasEvent::SelectBand(Some(b)))),
            None => took(s, None),
        }
    } else if s.dragging_sgram {
        took(s, Some(CanvasEvent::Seek(clamped(at.t, 0, w.duration))))
    } else {
        hovered(s, at)
    }
}

/// The left button comes up: every drag of it ends. A press on the curve that
/// did not become a drag clears the selected band.
pub open spec fn left_released(w: Waveform, s: DragState, p: Place) -> Outcome {
    let done = DragState {
        panning_from: s.panning_from,
        last_hover_px: s.last_hover_px,
        ..idle()
    };
    let plot = w.plot(p.canvas_w, p.canvas_h);
    if s.band_drag_from is Some && plot is Some && at_most(
        fabs(fsub(plot->0.along(p.x), s.band_drag_from->0)),
        BAND_LEAST,
    ) {
        took(done, Some(CanvasEvent::SelectBand(None)))
    } else {
        took(done, None)
    }
}

/// What comes of something that the pointer did; nothing while it is not on
/// the canvas.
pub open spec fn gesture(
    w: Waveform,
    splits: Seq<Bits>,
    s: DragState,
    what: Pointer,
    place: Option<Place>,
) -> Outcome {
    match place {
        None => passed(s),
        Some(p) => {
            let at = spot(w, p);
            match what {
                Pointer::Wheel(by) => wheel_turned(w, s, at, by),
                Pointer::MiddleDown => took(
                    if at.in_wave || at.in_sgram {
                        DragState {
                            panning_from: Some(Grab { x: at.rx, scroll: w.scroll }),
                            ..s
                        }
                    } else {
                        s
                    },
                    None,
                ),
                Pointer::MiddleUp => took(DragState { panning_from: None, ..s }, None),
                Pointer::RightDown => right_pressed(w, s, at, p, splits),
                Pointer::LeftDown => left_pressed(w, s, at, p, splits),
                Pointer::Moved => moved(w, s, at, p),
                Pointer::LeftUp => left_released(w, s, p),
                Pointer::Other => passed(s),
            }
        },
    }
}

// ---- Execution --------------------------------------------------------------

impl Default for DragState {
    fn default() -> (s: DragState)
        ensures
            s == idle(),
    {
        DragState {
            dragging: None,
            dragging_guide: false,
            dragging_trim: None,
            dragging_overview: false,
            dragging_sgram: false,
            panning_from: None,
            band_drag_from: None,
            last_hover_px: None,
        }
    }
}

fn taken(state: DragState, event: Option<CanvasEvent>) -> (r: Outcome)
    ensures
        r == took(state, event),
{
    Outcome { state, captured: true, event }
}

fn ignored(state: DragState) -> (r: Outcome)
    ensures
        r == passed(state),
{
    Outcome { state, captured: false, event: None }
}

fn inside(r: &Option<Rect>, px: Bits, py: Bits) -> (b: bool)
    ensures
        b == in_rect(*r, px, py),
{
    match r {
        Some(x) => x.contains(px, py),
        None => false,
    }
}

impl Waveform {
    /// What lies under the pointer.
    pub fn spot_at(&self, p: Place) -> (s: Spot)
        requires
            at_most(0, self.duration),
        ensures
            s == spot(*self, p),
    {
        let area: Rect = self.wave_area(p.canvas_w, p.canvas_h);
        let rx: Bits = subtract(p.x, area.x);
        let ry: Bits = subtract(p.y, area.y);
        let in_wave: bool = is_at_most(0, rx) && is_at_most(0, ry) && is_at_most(rx, area.w) && is_at_most(
            ry,
            area.h,
        );
        let in_sgram: bool = inside(&self.spectrogram_rect(p.canvas_w, p.canvas_h), p.x, p.y);
        let t: Bits = if in_wave || in_sgram {
            self.x_to_t(rx, area.w)
        } else {
            self.scroll
        };
        let in_flags: bool = in_wave && (less_than(ry, FLAG_H) || less_than(subtract(area.h, FLAG_H), ry));
        Spot { area, rx, ry, in_wave, in_sgram, t, in_flags }
    }

    fn turn_wheel(&self, s: DragState, at: Spot, by: Scroll) -> (r: Outcome)
        ensures
            r == wheel_turned(*self, s, at, by),
    {
        let (dx, dy): (Bits, Bits) = match by {
            Scroll::Lines(x, y) => (x, y),
            Scroll::Pixels(x, y) => (divide_by(x, LINE_PIXELS), divide_by(y, LINE_PIXELS)),
        };
        if !at.in_wave && !at.in_sgram {
            return ignored(s);
        }
        if less_than(absolute(dy), absolute(dx)) && less_than(PAN_LEAST, absolute(dx)) {
            let secs: Bits = multiply(multiply(neg(dx), PAN_STEP), self.visible_duration());
            return taken(s, Some(CanvasEvent::Pan(secs)));
        }
        if less_than(0, dy) || less_than(dy, 0) {
            return taken(s, Some(CanvasEvent::Zoom(dy, at.t)));
        }
        ignored(s)
    }

    /// The first split within reach of the pointer.
    pub fn hit_split(&self, at: Spot, zones: &ZoneMap) -> (r: Option<usize>)
        ensures
            r == split_hit(*self, at, zones.splits@, 0),
    {
        let reach: Bits = if at.in_flags {
            SPLIT_FLAG_REACH
        } else {
            SPLIT_REACH
        };
        let n: usize = zones.splits.len();
        let mut i: usize = 0;
        while i < n
            invariant
                n == zones.splits@.len(),
                i <= n,
                reach == split_reach(at),
                split_hit(*self, at, zones.splits@, 0) == split_hit(*self, at, zones.splits@, i as nat),
            decreases n - i,
        {
            let x: Bits = self.t_to_x(zones.splits[i], at.area.w);
            if less_than(absolute(subtract(at.rx, x)), reach) {
                return Some(i);
            }
            i = i + 1;
        }
        None
    }

    fn press_right(&self, s: DragState, at: Spot, p: Place, zones: &ZoneMap) -> (r: Outcome)
        requires
            zones.wf(),
        ensures
            r == right_pressed(*self, s, at, p, zones.splits@),
    {
        if !at.in_wave {
            return ignored(s);
        }
        let zone: usize = zones.zone_at(at.t);
        let split: Option<usize> = self.hit_split(at, zones);
        taken(s, Some(CanvasEvent::RightClickZone(zone, split, p.x, p.y)))
    }

    fn hit_handle(&self, at: Spot, handle: TrimHandle) -> (r: bool)
        ensures
            r == on_handle(*self, at, handle),
    {
        let reach: Bits = if at.in_flags {
            FLAG_REACH
        } else {
            LINE_SLOP
        };
        match handle {
            TrimHandle::Start => match self.trim_start {
                None => false,
                Some(t) => {
                    let x: Bits = self.t_to_x(t, at.area.w);
                    is_at_most(subtract(x, LINE_SLOP), at.rx) && is_at_most(at.rx, add_to(x, reach))
                },
            },
            TrimHandle::End => match self.trim_end {
                None => false,
                Some(t) => {
                    let x: Bits = self.t_to_x(t, at.area.w);
                    is_at_most(subtract(x, reach), at.rx) && is_at_most(at.rx, add_to(x, LINE_SLOP))
                },
            },
        }
    }

    fn hit_guide(&self, at: Spot, y: Bits) -> (r: bool)
        ensures
            r == on_guide(*self, at, y),
    {
        match self.guide_amp {
            None => false,
            Some(amp) => {
                let (upper, lower): (Bits, Bits) = guide_lines(amp, &at.area);
                less_than(absolute(subtract(y, upper)), GUIDE_REACH) || less_than(
                    absolute(subtract(y, lower)),
                    GUIDE_REACH,
                )
            },
        }
    }

    fn frame_to_repair(&self, at: Spot) -> (r: Option<usize>)
        ensures
            r == repair_frame(*self, at),
    {
        if !self.click_repair_mode {
            return None;
        }
        let rate: Bits = from_whole(self.sample_rate as u64);
        let samples: Bits = larger(multiply(self.visible_duration(), rate), ONE);
        if !is_at_most(REPAIR_WIDTH, divide_by(at.area.w, samples)) {
            return None;
        }
        let f: u64 = round(multiply(at.t, rate));
        if f > usize::MAX as u64 {
            Some(usize::MAX)
        } else {
            Some(f as usize)
        }
    }

    fn press_below(&self, s: DragState, at: Spot, p: Place) -> (r: Outcome)
        requires
            at_most(0, self.duration),
        ensures
            r == pressed_below(*self, s, at, p),
    {
        if let Some(strip) = self.overview_rect(p.canvas_w, p.canvas_h) {
            if strip.contains(p.x, p.y) {
                let t: Bits = multiply(strip.fraction(p.x), self.duration);
                return taken(
                    DragState { dragging_overview: true, ..s },
                    Some(CanvasEvent::NavigateTo(t)),
                );
            }
        }
        if let Some(plot) = self.corr_plot_rect(p.canvas_w, p.canvas_h) {
            if plot.contains(p.x, p.y) {
                let from: Bits = plot.fraction(p.x);
                return taken(DragState { band_drag_from: Some(from), ..s }, None);
            }
        }
        if at.in_sgram {
            let t: Bits = clamp(at.t, 0, self.duration);
            return taken(DragState { dragging_sgram: true, ..s }, Some(CanvasEvent::Seek(t)));
        }
        if self.mono_badge_hit(p.canvas_w, p.canvas_h, p.x, p.y) {
            return taken(s, Some(CanvasEvent::ToggleMonoFold));
        }
        ignored(s)
    }

    fn press_wave(&self, s: DragState, at: Spot, p: Place, zones: &ZoneMap) -> (r: Outcome)
        ensures
            r == pressed_on_wave(*self, s, at, p, zones.splits@),
    {
        if self.hit_handle(at, TrimHandle::Start) {
            return taken(DragState { dragging_trim: Some(TrimHandle::Start), ..s }, None);
        }
        if self.hit_handle(at, TrimHandle::End) {
            return taken(DragState { dragging_trim: Some(TrimHandle::End), ..s }, None);
        }
        if self.hit_guide(at, p.y) {
            return taken(DragState { dragging_guide: true, ..s }, None);
        }
        match self.hit_split(at, zones) {
            Some(i) => taken(
                DragState { dragging: Some(i), ..s },
                Some(CanvasEvent::SelectSplit(i)),
            ),
            None => match self.frame_to_repair(at) {
                Some(f) => taken(s, Some(CanvasEvent::RepairClick(f))),
                None => taken(s, Some(CanvasEvent::Seek(at.t))),
            },
        }
    }

    fn press_left(&self, s: DragState, at: Spot, p: Place, zones: &ZoneMap) -> (r: Outcome)
        requires
            at_most(0, self.duration),
        ensures
            r == left_pressed(*self, s, at, p, zones.splits@),
    {
        let below: Outcome = self.press_below(s, at, p);
        if below.captured || !at.in_wave {
            return below;
        }
        self.press_wave(s, at, p, zones)
    }

    fn draw_band(&self, p: Place, anchor: Bits) -> (r: Option<Band>)
        ensures
            r == drawn_band(*self, p, anchor),
    {
        match self.corr_plot_rect(p.canvas_w, p.canvas_h) {
            None => None,
            Some(plot) => {
                let here: Bits = plot.fraction(p.x);
                if self.corr_freq_range().is_none() {
                    return None;
                }
                if !less_than(BAND_LEAST, absolute(subtract(here, anchor))) {
                    return None;
                }
                if is_at_most(anchor, here) {
                    Some(Band { lo: anchor, hi: here })
                } else {
                    Some(Band { lo: here, hi: anchor })
                }
            },
        }
    }

    fn hover(&self, s: DragState, at: Spot) -> (r: Outcome)
        ensures
            r == hovered(s, at),
    {
        if !at.in_wave && !at.in_sgram {
            if s.last_hover_px.is_some() {
                return Outcome {
                    state: DragState { last_hover_px: None, ..s },
                    captured: false,
                    event: Some(CanvasEvent::Hover(None)),
                };
            }
            return ignored(s);
        }
        if let Some(last) = s.last_hover_px {
            if !is_at_most(HOVER_STEP, absolute(subtract(last, at.rx))) {
                return ignored(s);
            }
        }
        Outcome {
            state: DragState { last_hover_px: Some(at.rx), ..s },
            captured: false,
            event: Some(CanvasEvent::Hover(Some(at.t))),
        }
    }

    fn drag(&self, s: DragState, at: Spot, p: Place) -> (r: Outcome)
        requires
            at_most(0, self.duration),
        ensures
            r == moved(*self, s, at, p),
    {
        if s.dragging_overview {
            if let Some(strip) = self.overview_rect(p.canvas_w, p.canvas_h) {
                let t: Bits = multiply(strip.fraction(p.x), self.duration);
                return taken(s, Some(CanvasEvent::NavigateTo(t)));
            }
        }
        if let Some(handle) = s.dragging_trim {
            let t: Bits = clamp(at.t, 0, self.duration);
            return match handle {
                TrimHandle::Start => taken(s, Some(CanvasEvent::MoveTrimStart(t))),
                TrimHandle::End => taken(s, Some(CanvasEvent::MoveTrimEnd(t))),
            };
        }
        if s.dragging_guide {
            return taken(s, Some(CanvasEvent::DragGuide(y_to_amplitude(at.ry, at.area.h))));
        }
        if let Some(g) = s.panning_from {
            let by: Bits = multiply(
                divide_by(subtract(at.rx, g.x), at.area.w),
                self.visible_duration(),
            );
            let delta: Bits = subtract(subtract(g.scroll, by), self.scroll);
            return taken(s, Some(CanvasEvent::Pan(delta)));
        }
        if let Some(i) = s.dragging {
            return taken(s, Some(CanvasEvent::MoveSplit(i, at.t)));
        }
        if let Some(anchor) = s.band_drag_from {
            return match self.draw_band(p, anchor) {
                Some(b) => taken(s, Some(CanvasEvent::SelectBand(Some(b)))),
                None => taken(s, None),
            };
        }
        if s.dragging_sgram {
            return taken(s, Some(CanvasEvent::Seek(clamp(at.t, 0, self.duration))));
        }
        self.hover(s, at)
    }

    fn release_left(&self, s: DragState, p: Place) -> (r: Outcome)
        ensures
            r == left_released(*self, s, p),
    {
        let done: DragState = DragState {
            dragging: None,
            dragging_guide: false,
            dragging_trim: None,
            dragging_overview: false,
            dragging_sgram: false,
            panning_from: s.panning_from,
            band_drag_from: None,
            last_hover_px: s.last_hover_px,
        };
        if let Some(anchor) = s.band_drag_from {
            if let Some(plot) = self.corr_plot_rect(p.canvas_w, p.canvas_h) {
                if is_at_most(absolute(subtract(plot.fraction(p.x), anchor)), BAND_LEAST) {
                    return taken(done, Some(CanvasEvent::SelectBand(None)));
                }
            }
        }
        taken(done, None)
    }

    /// Takes something that the pointer did. `place` is where the pointer is on
    /// the canvas, if it is there.
    pub fn update(&self, zones: &ZoneMap, s: DragState, what: Pointer, place: Option<Place>) -> (r: Outcome)
        requires
            zones.wf(),
            at_most(0, self.duration),
        ensures
            r == gesture(*self, zones.splits@, s, what, place),
    {
        let p: Place = match place {
            None => return ignored(s),
            Some(p) => p,
        };
        let at: Spot = self.spot_at(p);
        match what {
            Pointer::Wheel(by) => self.turn_wheel(s, at, by),
            Pointer::MiddleDown => if at.in_wave || at.in_sgram {
                let grab: Grab = Grab { x: at.rx, scroll: self.scroll };
                taken(DragState { panning_from: Some(grab), ..s }, None)
            } else {
                taken(s, None)
            },
            Pointer::MiddleUp => taken(DragState { panning_from: None, ..s }, None),
            Pointer::RightDown => self.press_right(s, at, p, zones),
            Pointer::LeftDown => self.press_left(s, at, p, zones),
            Pointer::Moved => self.drag(s, at, p),
            Pointer::LeftUp => self.release_left(s, p),
            Pointer::Other => ignored(s),
        }
    }
}

/// The amplitude at a height of the waveform.
pub fn y_to_amplitude(y: Bits, h: Bits) -> (r: Bits)
    ensures
        r == amplitude_at(y, h),
{
    proof {
        crate::single::lemma_magnitude_order(MILLIONTH, ONE);
    }
    let mid: Bits = multiply(h, HALF);
    clamp(divide_by(absolute(subtract(mid, y)), larger(mid, ONE)), MILLIONTH, ONE)
}

// ---- Laws -------------------------------------------------------------------

/// How many things follow the pointer while the left button is down.
pub open spec fn drags(s: DragState) -> nat {
    (if s.dragging is Some { 1nat } else { 0nat }) + (if s.dragging_guide { 1nat } else { 0nat })
        + (if s.dragging_trim is Some { 1nat } else { 0nat }) + (if s.dragging_overview {
        1nat
    } else {
        0nat
    }) + (if s.dragging_sgram { 1nat } else { 0nat }) + (if s.band_drag_from is Some {
        1nat
    } else {
        0nat
    })
}

/// Releasing the left button ends every drag of it, and leaves a pan with the
/// middle button alone.
pub proof fn law_release_ends_drags(w: Waveform, splits: Seq<Bits>, s: DragState, p: Place)
    ensures
        ({
            let after = gesture(w, splits, s, Pointer::LeftUp, Some(p)).state;
            drags(after) == 0 && after.panning_from == s.panning_from
        }),
{
}

/// A press begins at most one drag.
pub proof fn law_press_begins_one_drag(w: Waveform, splits: Seq<Bits>, s: DragState, p: Place)
    requires
        drags(s) == 0,
    ensures
        drags(gesture(w, splits, s, Pointer::LeftDown, Some(p)).state) <= 1,
{
}

/// The same drags of the left button are in progress.
pub open spec fn same_drags(a: DragState, b: DragState) -> bool {
    &&& a.dragging == b.dragging
    &&& a.dragging_guide == b.dragging_guide
    &&& a.dragging_trim == b.dragging_trim
    &&& a.dragging_overview == b.dragging_overview
    &&& a.dragging_sgram == b.dragging_sgram
    &&& a.band_drag_from == b.band_drag_from
}

/// Only a press begins a drag, and only a release ends it: moving the pointer,
/// turning the wheel and the other buttons keep it.
pub proof fn law_drag_is_kept(
    w: Waveform,
    splits: Seq<Bits>,
    s: DragState,
    what: Pointer,
    place: Option<Place>,
)
    requires
        what !is LeftDown,
        what !is LeftUp,
    ensures
        same_drags(gesture(w, splits, s, what, place).state, s),
{
    if let Some(p) = place {
        let at = spot(w, p);
        match what {
            Pointer::Moved => {
                lemma_moved_keeps(w, s, at, p);
            },
            _ => {},
        }
    }
}

proof fn lemma_moved_keeps(w: Waveform, s: DragState, at: Spot, p: Place)
    ensures
        same_drags(moved(w, s, at, p).state, s),
{
}

/// The splits that an outcome speaks of exist.
pub open spec fn speaks_of_splits(out: Outcome, n: nat) -> bool {
    &&& out.state.dragging matches Some(i) ==> i < n
    &&& match out.event {
        Some(CanvasEvent::SelectSplit(i)) => i < n,
        Some(CanvasEvent::MoveSplit(i, _)) => i < n,
        Some(CanvasEvent::RightClickZone(_, Some(i), _, _)) => i < n,
        _ => true,
    }
}

/// A split that is selected or dragged exists, as long as the map keeps its
/// splits during the gesture.
pub proof fn law_split_exists(
    w: Waveform,
    splits: Seq<Bits>,
    s: DragState,
    what: Pointer,
    place: Option<Place>,
)
    requires
        splits.len() <= usize::MAX,
        s.dragging matches Some(i) ==> i < splits.len(),
    ensures
        speaks_of_splits(gesture(w, splits, s, what, place), splits.len()),
{
    if let Some(p) = place {
        let at = spot(w, p);
        match what {
            Pointer::LeftDown => {
                lemma_below_speaks(w, s, at, p, splits.len());
                lemma_wave_speaks(w, s, at, p, splits);
            },
            Pointer::RightDown => {
                lemma_hit_exists(w, at, splits, 0);
            },
            Pointer::Moved => {
                lemma_moved_speaks(w, s, at, p, splits.len());
            },
            _ => {},
        }
    }
}

proof fn lemma_below_speaks(w: Waveform, s: DragState, at: Spot, p: Place, n: nat)
    requires
        s.dragging matches Some(i) ==> i < n,
    ensures
        speaks_of_splits(pressed_below(w, s, at, p), n),
{
}

proof fn lemma_wave_speaks(w: Waveform, s: DragState, at: Spot, p: Place, splits: Seq<Bits>)
    requires
        splits.len() <= usize::MAX,
        s.dragging matches Some(i) ==> i < splits.len(),
    ensures
        speaks_of_splits(pressed_on_wave(w, s, at, p, splits), splits.len()),
{
    lemma_hit_exists(w, at, splits, 0);
}

proof fn lemma_moved_speaks(w: Waveform, s: DragState, at: Spot, p: Place, n: nat)
    requires
        s.dragging matches Some(i) ==> i < n,
    ensures
        speaks_of_splits(moved(w, s, at, p), n),
{
}

proof fn lemma_hit_exists(w: Waveform, at: Spot, splits: Seq<Bits>, from: nat)
    requires
        splits.len() <= usize::MAX,
    ensures
        split_hit(w, at, splits, from) matches Some(i) ==> from <= i < splits.len() && reaches(
            w,
            at,
            splits[i as int],
        ) && forall|j: int| from <= j < i ==> !reaches(w, at, #[trigger] splits[j]),
    decreases splits.len() - from,
{
    if from < splits.len() && !reaches(w, at, splits[from as int]) {
        lemma_hit_exists(w, at, splits, from + 1);
    }
}

/// A time inside the file, or no number.
pub open spec fn in_file(w: Waveform, t: Bits) -> bool {
    is_nan(t) || at_most(0, t) && at_most(t, w.duration)
}

/// The times of the trim handles that an outcome sends lie inside the file.
pub open spec fn trims_inside(w: Waveform, out: Outcome) -> bool {
    match out.event {
        Some(CanvasEvent::MoveTrimStart(t)) => in_file(w, t),
        Some(CanvasEvent::MoveTrimEnd(t)) => in_file(w, t),
        _ => true,
    }
}

/// A trim handle is never dragged out of the file.
pub proof fn law_trim_stays_in_file(
    w: Waveform,
    splits: Seq<Bits>,
    s: DragState,
    what: Pointer,
    place: Option<Place>,
)
    requires
        at_most(0, w.duration),
    ensures
        trims_inside(w, gesture(w, splits, s, what, place)),
{
    if let Some(p) = place {
        let at = spot(w, p);
        match what {
            Pointer::Moved => {
                lemma_moved_trims(w, s, at, p);
            },
            Pointer::LeftDown => {
                lemma_below_trims(w, s, at, p);
                lemma_wave_trims(w, s, at, p, splits);
            },
            _ => {},
        }
    }
}

proof fn lemma_moved_trims(w: Waveform, s: DragState, at: Spot, p: Place)
    requires
        at_most(0, w.duration),
    ensures
        trims_inside(w, moved(w, s, at, p)),
{
}

proof fn lemma_below_trims(w: Waveform, s: DragState, at: Spot, p: Place)
    ensures
        trims_inside(w, pressed_below(w, s, at, p)),
{
}

proof fn lemma_wave_trims(w: Waveform, s: DragState, at: Spot, p: Place, splits: Seq<Bits>)
    ensures
        trims_inside(w, pressed_on_wave(w, s, at, p, splits)),
{
}

} // verus!
