//! The controls around the waveform: what each shows, its range, and when it
//! can be used.

use vstd::prelude::*;
use vstd::string::*;
use crate::labels::{clock, fmt_time, thousandths};
use crate::normalize::NormalizeMode;
use crate::panels::ControlTab;
use crate::scalar::{fadd, fsub, fmul, fdiv, fmax, fmin, parts, lemma_zero_one};
use crate::scalar::{add_to, subtract, multiply, divide_by, larger, smaller, nearest_parts};
use crate::single::{Bits, ONE, TWO, HALF, MILLIONTH, less, less_than, at_most, is_at_most, unsigned, negative, clamped, clamp};
use crate::text::{decimal, padded, decimal_text, digit};
use crate::zones::SMALL;

verus! {

pub const HUNDRED: Bits = 0x42c8_0000;
/// The scrollbar is shown when there is more to scroll than this.
pub const SCROLL_LEAST: Bits = 0x3a83_126f;
/// Steps of the scrollbar in a window.
pub const SCROLL_STEPS: Bits = 0x4348_0000;
/// The margin of the strip below the ceiling, half a slider's handle.
pub const STRIP_MARGIN: Bits = 0x4100_0000;
pub const STRIP_TICK: Bits = 0x4040_0000;
/// So much below the peak the ceiling clips.
pub const STRIP_CLIPS: Bits = 0x3a83_126f;
/// The range of the ceiling.
pub const CEILING_LOW: Bits = 0xc1f0_0000;

// ---- Numbers as text --------------------------------------------------------

/// The tenth power of the digits behind the point.
pub open spec fn scale_of(places: nat) -> nat {
    if places == 0 {
        1
    } else if places == 1 {
        10
    } else if places == 2 {
        100
    } else {
        10_000
    }
}

/// The sign of a number, with or without a plus.
pub open spec fn sign_text(b: Bits, plus: bool) -> Seq<char> {
    if negative(b) {
        seq!['-']
    } else if plus {
        seq!['+']
    } else {
        Seq::empty()
    }
}

/// A number with none, one, two or four digits behind the point.
pub open spec fn fixed(b: Bits, places: nat, plus: bool) -> Seq<char> {
    let n = parts(b, scale_of(places));
    sign_text(b, plus) + decimal(n / scale_of(places)) + (if places == 0 {
        Seq::empty()
    } else {
        seq!['.'] + padded(n % scale_of(places), places)
    })
}

/// A number below 10000 with zeros in front.
fn push_padded(s: &mut String, n: u64, places: u32)
    requires
        places == 1 || places == 2 || places == 4,
        n < scale_of(places as nat),
    ensures
        final(s)@ == old(s)@ + padded(n as nat, places as nat),
{
    proof {
        reveal_with_fuel(decimal, 5);
    }
    if places == 4 {
        push_digit(s, n / 1000);
        push_digit(s, (n / 100) % 10);
    }
    if places >= 2 {
        push_digit(s, (n / 10) % 10);
    }
    push_digit(s, n % 10);
    assert(s@ =~= old(s)@ + padded(n as nat, places as nat));
}

fn push_digit(s: &mut String, n: u64)
    requires
        n < 10,
    ensures
        final(s)@ == old(s)@.push(digit(n as nat)),
{
    s.push((48 + n as u8) as char);
}

/// A number with none, one, two or four digits behind the point, rounded to
/// the nearest, halves to the even digit.
pub fn fixed_text(b: Bits, places: u32, plus: bool) -> (s: String)
    requires
        unsigned(b) < 0x6c80_0000,
        places == 0 || places == 1 || places == 2 || places == 4,
    ensures
        s@ == fixed(b, places as nat, plus),
{
    let k: u32 = if places == 0 {
        1
    } else if places == 1 {
        10
    } else if places == 2 {
        100
    } else {
        10_000
    };
    let n: u128 = nearest_parts(b, k);
    let mut s: String = String::new();
    if b >= 0x8000_0000 {
        s.push('-');
    } else if plus {
        s.push('+');
    }
    s.append(decimal_text(n / k as u128).as_str());
    if places > 0 {
        s.push('.');
        push_padded(&mut s, (n % k as u128) as u64, places);
    }
    assert(s@ =~= fixed(b, places as nat, plus));
    s
}

// ---- Sliders ----------------------------------------------------------------

/// A slider.
#[derive(Clone, Copy, PartialEq, Eq, Debug, Structural)]
pub enum Knob {
    Ceiling,
    InputGain,
    DcOffset,
    DcBlocker,
    FadeIn,
    FadeOut,
    Sensitivity,
    Normalize(NormalizeMode),
}

/// Lowest and highest value of a slider, and its step.
#[derive(Clone, Copy, PartialEq, Eq, Debug, Structural)]
pub struct Range {
    pub low: Bits,
    pub high: Bits,
    pub step: Bits,
}

/// -30 to 0 dB, -12 to 24 dB, half of full scale either way, 5 to 60 Hz, up to
/// ten seconds, and none to all.
pub open spec fn range_of(k: Knob) -> Range {
    match k {
        Knob::Ceiling => Range { low: CEILING_LOW, high: 0, step: 0x3dcc_cccd },
        Knob::InputGain => Range { low: 0xc140_0000, high: 0x41c0_0000, step: 0x3dcc_cccd },
        Knob::DcOffset => Range { low: 0xbf00_0000, high: 0x3f00_0000, step: 0x38d1_b717 },
        Knob::DcBlocker => Range { low: 0x40a0_0000, high: 0x4270_0000, step: ONE },
        Knob::FadeIn => Range { low: 0, high: 0x4120_0000, step: 0x3d4c_cccd },
        Knob::FadeOut => Range { low: 0, high: 0x4120_0000, step: 0x3d4c_cccd },
        Knob::Sensitivity => Range { low: 0, high: ONE, step: 0x3d4c_cccd },
        Knob::Normalize(mode) => Range { low: mode.lowest(), high: mode.highest(), step: 0x3dcc_cccd },
    }
}

/// The text beside a slider.
pub open spec fn reading_of(k: Knob, v: Bits) -> Seq<char> {
    match k {
        Knob::Ceiling | Knob::InputGain => fixed(v, 1, true) + " dB"@,
        Knob::DcOffset => fixed(v, 4, true),
        Knob::DcBlocker => fixed(v, 0, false) + " Hz"@,
        Knob::FadeIn | Knob::FadeOut => fixed(v, 2, false) + " s"@,
        Knob::Sensitivity => fixed(fmul(v, HUNDRED), 0, false) + "%"@,
        Knob::Normalize(NormalizeMode::Peak) => fixed(v, 1, true) + " "@ + "dBFS"@,
        Knob::Normalize(NormalizeMode::Lufs) => fixed(v, 1, true) + " "@ + "LUFS"@,
    }
}

/// Can the text beside a slider be written out?
pub open spec fn readable(k: Knob, v: Bits) -> bool {
    unsigned(
        if k is Sensitivity {
            fmul(v, HUNDRED)
        } else {
            v
        },
    ) < 0x6c80_0000
}

impl Knob {
    /// The range of the slider.
    pub fn range(self) -> (r: Range)
        ensures
            r == range_of(self),
    {
        match self {
            Knob::Ceiling => Range { low: CEILING_LOW, high: 0, step: 0x3dcc_cccd },
            Knob::InputGain => Range { low: 0xc140_0000, high: 0x41c0_0000, step: 0x3dcc_cccd },
            Knob::DcOffset => Range { low: 0xbf00_0000, high: 0x3f00_0000, step: 0x38d1_b717 },
            Knob::DcBlocker => Range { low: 0x40a0_0000, high: 0x4270_0000, step: ONE },
            Knob::FadeIn => Range { low: 0, high: 0x4120_0000, step: 0x3d4c_cccd },
            Knob::FadeOut => Range { low: 0, high: 0x4120_0000, step: 0x3d4c_cccd },
            Knob::Sensitivity => Range { low: 0, high: ONE, step: 0x3d4c_cccd },
            Knob::Normalize(mode) => {
                let (low, high, _usual): (Bits, Bits, Bits) = mode.range();
                Range { low, high, step: 0x3dcc_cccd }
            },
        }
    }

    /// The text beside the slider.
    pub fn reading(self, v: Bits) -> (s: String)
        requires
            readable(self, v),
        ensures
            s@ == reading_of(self, v),
    {
        match self {
            Knob::Ceiling | Knob::InputGain => {
                let mut s: String = fixed_text(v, 1, true);
                s.append(" dB");
                s
            },
            Knob::DcOffset => fixed_text(v, 4, true),
            Knob::DcBlocker => {
                let mut s: String = fixed_text(v, 0, false);
                s.append(" Hz");
                s
            },
            Knob::FadeIn | Knob::FadeOut => {
                let mut s: String = fixed_text(v, 2, false);
                s.append(" s");
                s
            },
            Knob::Sensitivity => {
                let mut s: String = fixed_text(multiply(v, HUNDRED), 0, false);
                s.append("%");
                s
            },
            Knob::Normalize(mode) => {
                let mut s: String = fixed_text(v, 1, true);
                s.append(" ");
                s.append(mode.unit());
                s
            },
        }
    }
}

/// A row of a tab.
#[derive(Clone, Copy, PartialEq, Eq, Debug, Structural)]
pub enum Row {
    ClipperChoice,
    OversamplingChoice,
    Slider(Knob),
}

/// The rows of a tab from the top down.
pub open spec fn rows_of(tab: ControlTab, mode: NormalizeMode) -> Seq<Row> {
    match tab {
        ControlTab::Clipper => seq![
            Row::ClipperChoice,
            Row::OversamplingChoice,
            Row::Slider(Knob::Ceiling),
        ],
        ControlTab::Levels => seq![Row::Slider(Knob::InputGain)],
        ControlTab::Fix => seq![Row::Slider(Knob::DcOffset), Row::Slider(Knob::DcBlocker)],
        ControlTab::Output => seq![
            Row::Slider(Knob::Normalize(mode)),
            Row::Slider(Knob::FadeIn),
            Row::Slider(Knob::FadeOut),
        ],
    }
}

/// The rows of a tab from the top down.
pub fn tab_rows(tab: ControlTab, mode: NormalizeMode) -> (rows: Vec<Row>)
    ensures
        rows@ == rows_of(tab, mode),
{
    let mut rows: Vec<Row> = Vec::new();
    match tab {
        ControlTab::Clipper => {
            rows.push(Row::ClipperChoice);
            rows.push(Row::OversamplingChoice);
            rows.push(Row::Slider(Knob::Ceiling));
        },
        ControlTab::Levels => {
            rows.push(Row::Slider(Knob::InputGain));
        },
        ControlTab::Fix => {
            rows.push(Row::Slider(Knob::DcOffset));
            rows.push(Row::Slider(Knob::DcBlocker));
        },
        ControlTab::Output => {
            rows.push(Row::Slider(Knob::Normalize(mode)));
            rows.push(Row::Slider(Knob::FadeIn));
            rows.push(Row::Slider(Knob::FadeOut));
        },
    }
    assert(rows@ =~= rows_of(tab, mode));
    rows
}

/// The oversampling factors to choose from.
pub fn oversampling_choices() -> (list: [u8; 4])
    ensures
        list@ == seq![1u8, 2, 4, 8],
{
    let list: [u8; 4] = [1, 2, 4, 8];
    list
}

// ---- The zone bar -----------------------------------------------------------

/// The buttons of the zone bar that can be pressed.
#[derive(Clone, Copy, PartialEq, Eq, Debug, Structural)]
pub struct ZoneBar {
    pub split: bool,
    pub delete: bool,
    pub previous: bool,
    pub next: bool,
}

/// Which buttons of the zone bar can be pressed: one splits a loaded file, one
/// deletes a selected split, and two go to the neighbours of the zone.
pub fn zone_bar(has_file: bool, split_selected: bool, zone: Option<usize>, zones: usize) -> (r: ZoneBar)
    ensures
        r.split == has_file,
        r.delete == split_selected,
        r.previous == (zone matches Some(z) && z > 0),
        r.next == ((if zone is Some {
            zone->0 as int
        } else {
            0
        }) + 1 < zones),
{
    let cur: usize = match zone {
        Some(z) => z,
        None => 0,
    };
    ZoneBar {
        split: has_file,
        delete: split_selected,
        previous: cur > 0,
        next: zones > 0 && cur < zones - 1,
    }
}

/// The name of the selected zone.
pub open spec fn zone_name(zone: nat, zones: nat) -> Seq<char> {
    if zones == 0 {
        "(no zone)"@
    } else {
        "Zone "@ + decimal(zone + 1) + " of "@ + decimal(zones)
    }
}

/// The name of the selected zone, the first where none is.
pub fn zone_label(zone: Option<usize>, zones: usize) -> (s: String)
    ensures
        s@ == zone_name(
            if zone is Some {
                zone->0 as nat
            } else {
                0
            },
            zones as nat,
        ),
{
    if zones == 0 {
        return String::from_str("(no zone)");
    }
    let cur: usize = match zone {
        Some(z) => z,
        None => 0,
    };
    let mut s: String = String::from_str("Zone ");
    s.append(decimal_text(cur as u128 + 1).as_str());
    s.append(" of ");
    s.append(decimal_text(zones as u128).as_str());
    s
}

// ---- The top bar ------------------------------------------------------------

/// The times beside the scissors: start, end and length of the exported part.
/// Nothing while all of the file is exported.
pub open spec fn trim_times(ts: Bits, te: Bits, duration: Bits) -> Option<(Bits, Bits, Bits)> {
    if at_most(ts, SMALL) && at_most(fsub(duration, SMALL), te) {
        None
    } else {
        Some((ts, te, fmax(fsub(te, ts), 0)))
    }
}

/// A time as it is shown.
pub open spec fn shown_time(t: Bits) -> Seq<char> {
    clock(thousandths(t))
}

/// The times beside the scissors, as text.
pub fn trim_readout(duration: Bits, trim_start: Option<Bits>, trim_end: Option<Bits>) -> (r: Option<
    (String, String, String),
>)
    ensures
        ({
            let ts = if trim_start is Some {
                trim_start->0
            } else {
                0
            };
            let te = if trim_end is Some {
                trim_end->0
            } else {
                duration
            };
            match trim_times(ts, te, duration) {
                None => r is None,
                Some(t) => r matches Some(s) && s.0@ == shown_time(t.0) && s.1@ == shown_time(t.1)
                    && s.2@ == shown_time(t.2),
            }
        }),
{
    let ts: Bits = match trim_start {
        Some(t) => t,
        None => 0,
    };
    let te: Bits = match trim_end {
        Some(t) => t,
        None => duration,
    };
    if is_at_most(ts, SMALL) && is_at_most(subtract(duration, SMALL), te) {
        return None;
    }
    Some((fmt_time(ts), fmt_time(te), fmt_time(larger(subtract(te, ts), 0))))
}

/// The range and step of the scrollbar. There is none while all is visible.
pub open spec fn scroll_range(duration: Bits, zoom: Bits) -> Option<(Bits, Bits)> {
    let visible = if less(0, zoom) {
        fdiv(duration, zoom)
    } else {
        duration
    };
    let most = fmax(fsub(duration, visible), 0);
    if less(SCROLL_LEAST, most) {
        Some((most, fdiv(visible, SCROLL_STEPS)))
    } else {
        None
    }
}

/// The range and step of the scrollbar.
pub fn scrollbar(duration: Bits, zoom: Bits) -> (r: Option<(Bits, Bits)>)
    ensures
        r == scroll_range(duration, zoom),
{
    let visible: Bits = if less_than(0, zoom) {
        divide_by(duration, zoom)
    } else {
        duration
    };
    let most: Bits = larger(subtract(duration, visible), 0);
    if less_than(SCROLL_LEAST, most) {
        Some((most, divide_by(visible, SCROLL_STEPS)))
    } else {
        None
    }
}

// ---- Detection --------------------------------------------------------------

/// Times, separated by commas.
pub open spec fn time_list(times: Seq<Bits>) -> Seq<char>
    decreases times.len(),
{
    if times.len() == 0 {
        Seq::empty()
    } else if times.len() == 1 {
        shown_time(times[0])
    } else {
        time_list(times.drop_last()) + ", "@ + shown_time(times.last())
    }
}

/// What detection says of the splits that it found. Up to eight are listed.
pub open spec fn found_text(times: Seq<Bits>) -> Seq<char> {
    if times.len() == 0 {
        "No transitions detected at this sensitivity. Try increasing it."@
    } else {
        "Found "@ + decimal(times.len()) + " split(s) → "@ + decimal(times.len() + 1) + (if times.len()
            <= 8 {
            " zone(s):  "@ + time_list(times)
        } else {
            " zone(s)."@
        })
    }
}

fn list_times(times: &Vec<Bits>) -> (s: String)
    requires
        times@.len() > 0,
    ensures
        s@ == time_list(times@),
{
    let mut s: String = fmt_time(times[0]);
    let mut i: usize = 1;
    proof {
        assert(times@.take(1).len() == 1);
    }
    while i < times.len()
        invariant
            1 <= i <= times@.len(),
            s@ == time_list(times@.take(i as int)),
        decreases times@.len() - i,
    {
        s.append(", ");
        s.append(fmt_time(times[i]).as_str());
        proof {
            assert(times@.take(i + 1).drop_last() =~= times@.take(i as int));
        }
        i = i + 1;
    }
    assert(times@.take(times@.len() as int) =~= times@);
    s
}

/// What detection says of the splits that it found.
pub fn detection_text(times: &Vec<Bits>) -> (s: String)
    ensures
        s@ == found_text(times@),
{
    let n: usize = times.len();
    if n == 0 {
        return String::from_str("No transitions detected at this sensitivity. Try increasing it.");
    }
    let mut s: String = String::from_str("Found ");
    s.append(decimal_text(n as u128).as_str());
    s.append(" split(s) → ");
    s.append(decimal_text(n as u128 + 1).as_str());
    if n <= 8 {
        s.append(" zone(s):  ");
        s.append(list_times(times).as_str());
    } else {
        s.append(" zone(s).");
    }
    assert(s@ =~= found_text(times@));
    s
}

// ---- The strip below the ceiling --------------------------------------------

/// The place of a level on the strip, below the middle of the slider's handle.
pub open spec fn strip_x(db: Bits, width: Bits) -> Bits {
    let usable = fmax(fsub(width, fmul(STRIP_MARGIN, TWO)), ONE);
    let span = fmax(fsub(0, CEILING_LOW), MILLIONTH);
    fadd(STRIP_MARGIN, fmul(clamped(fdiv(fsub(db, CEILING_LOW), span), 0, ONE), usable))
}

fn strip_place(db: Bits, width: Bits) -> (r: Bits)
    ensures
        r == strip_x(db, width),
{
    proof {
        lemma_zero_one();
    }
    let usable: Bits = larger(subtract(width, multiply(STRIP_MARGIN, TWO)), ONE);
    let span: Bits = larger(subtract(0, CEILING_LOW), MILLIONTH);
    let t: Bits = clamp(divide_by(subtract(db, CEILING_LOW), span), 0, ONE);
    add_to(STRIP_MARGIN, multiply(t, usable))
}

/// The bar from the ceiling to the zone's peak, by its edge and width; none
/// where the ceiling does not clip.
pub open spec fn clip_bar(ceiling: Bits, peak: Bits, width: Bits) -> Option<(Bits, Bits)> {
    let a = strip_x(ceiling, width);
    let b = strip_x(peak, width);
    if less(ceiling, fsub(peak, STRIP_CLIPS)) {
        Some((fmin(a, b), fmax(fsub(fmax(a, b), fmin(a, b)), ONE)))
    } else {
        None
    }
}

/// The bar from the ceiling to the zone's peak.
pub fn clipped_bar(ceiling: Bits, peak: Bits, width: Bits) -> (r: Option<(Bits, Bits)>)
    ensures
        r == clip_bar(ceiling, peak, width),
{
    if !less_than(ceiling, subtract(peak, STRIP_CLIPS)) {
        return None;
    }
    let a: Bits = strip_place(ceiling, width);
    let b: Bits = strip_place(peak, width);
    let low: Bits = smaller(a, b);
    Some((low, larger(subtract(larger(a, b), low), ONE)))
}

/// The last place for the tick.
pub open spec fn tick_last(width: Bits) -> Bits {
    fsub(
        fadd(STRIP_MARGIN, fmax(fsub(width, fmul(STRIP_MARGIN, TWO)), ONE)),
        STRIP_TICK,
    )
}

/// Is the strip wide enough for the tick?
pub fn tick_fits(width: Bits) -> (r: bool)
    ensures
        r == at_most(STRIP_MARGIN, tick_last(width)),
{
    let usable: Bits = larger(subtract(width, multiply(STRIP_MARGIN, TWO)), ONE);
    is_at_most(STRIP_MARGIN, subtract(add_to(STRIP_MARGIN, usable), STRIP_TICK))
}

/// The left edge of the tick at the zone's peak.
pub fn peak_tick(peak: Bits, width: Bits) -> (r: Bits)
    requires
        at_most(STRIP_MARGIN, tick_last(width)),
    ensures
        r == clamped(
            fsub(strip_x(peak, width), fmul(STRIP_TICK, HALF)),
            STRIP_MARGIN,
            tick_last(width),
        ),
{
    let usable: Bits = larger(subtract(width, multiply(STRIP_MARGIN, TWO)), ONE);
    let last: Bits = subtract(add_to(STRIP_MARGIN, usable), STRIP_TICK);
    let x: Bits = subtract(strip_place(peak, width), multiply(STRIP_TICK, HALF));
    clamp(x, STRIP_MARGIN, last)
}

} // verus!
