//! Rulers and lines across the waveform: times along its top, levels along its
//! side, ceilings, the guide, and dashes.

use vstd::prelude::*;
use crate::display::{nice_factor, map_level, map_level_at, STEP_TO_TWO, STEP_TO_FIVE, STEP_TO_TEN, FIVE, TEN};
use crate::dsp::{TWENTY, is_amplitude, db_to_amp};
use crate::functions::{Function, is_total, gives, evaluate};
use crate::scalar::{fadd, fsub, fmul, fdiv, fmax, fmin, fabs, floored};
use crate::scalar::{add_to, subtract, multiply, divide_by, larger, smaller, absolute, floor};
use crate::single::{Bits, ONE, TWO, HALF, at_most, is_at_most, less, less_than, value};
use crate::waveform::Rect;

verus! {

/// Pixels between two marks, about.
pub const MARK_SPACING: Bits = 0x42b4_0000;
/// The part of a step by which a mark may lie behind the window.
pub const MARK_SLACK: Bits = 0x3a83_126f;
/// Levels that the ruler marks.
pub const LEVELS: usize = 5;

/// How far a number lies below a limit.
pub open spec fn left_to(limit: Bits, t: Bits) -> nat {
    if at_most(t, limit) {
        (value(limit) - value(t) + 1) as nat
    } else {
        0
    }
}

// ---- Times ------------------------------------------------------------------

/// `step` is the step of one, two, five or ten times a power of ten next to
/// `raw`.
pub open spec fn is_nice_step<M: Fn(Function, Bits) -> Bits>(m: &M, raw: Bits, step: Bits) -> bool {
    if at_most(raw, 0) {
        step == ONE
    } else {
        exists|log: Bits, base: Bits|
            #![trigger gives(m, Function::Log10, raw, log), gives(m, Function::TenTo, floored(log), base)]
            gives(m, Function::Log10, raw, log) && gives(m, Function::TenTo, floored(log), base) && step
                == fmul(nice_factor(fdiv(raw, base)), base)
    }
}

/// The step of one, two, five or ten times a power of ten next to `raw`.
pub fn nice_time_step<M: Fn(Function, Bits) -> Bits>(m: &M, raw: Bits) -> (step: Bits)
    requires
        is_total(m),
    ensures
        is_nice_step(m, raw, step),
{
    if is_at_most(raw, 0) {
        return ONE;
    }
    let log: Bits = evaluate(m, Function::Log10, raw);
    let base: Bits = evaluate(m, Function::TenTo, floor(log));
    let mantissa: Bits = divide_by(raw, base);
    let nice: Bits = if less_than(mantissa, STEP_TO_TWO) {
        ONE
    } else if less_than(mantissa, STEP_TO_FIVE) {
        TWO
    } else if less_than(mantissa, STEP_TO_TEN) {
        FIVE
    } else {
        TEN
    };
    multiply(nice, base)
}

/// What a ruler shows: the seconds from `scroll` on, and where they are drawn.
#[derive(Clone, Copy, PartialEq, Eq, Debug, Structural)]
pub struct Window {
    pub scroll: Bits,
    pub visible: Bits,
    pub left: Bits,
    pub width: Bits,
}

/// A time on the ruler.
#[derive(Clone, Copy, PartialEq, Eq, Debug, Structural)]
pub struct TimeMark {
    pub t: Bits,
    pub x: Bits,
}

impl Window {
    /// The step between marks if it need not be a nice one.
    pub open spec fn raw_step(self) -> Bits {
        fdiv(self.visible, fmax(fdiv(self.width, MARK_SPACING), TWO))
    }

    pub open spec fn mark(self, t: Bits) -> TimeMark {
        TimeMark {
            t,
            x: fadd(self.left, fmul(fdiv(fsub(t, self.scroll), self.visible), self.width)),
        }
    }

    /// Behind this there are no marks.
    pub open spec fn limit(self, step: Bits) -> Bits {
        fadd(fadd(self.scroll, self.visible), fmul(step, MARK_SLACK))
    }

    /// The last mark at or before the window.
    pub open spec fn first(self, step: Bits) -> Bits {
        fmul(floored(fdiv(self.scroll, step)), step)
    }

    /// The marks from `t` on, a step apart. They end where a step no longer
    /// changes the time.
    pub open spec fn marks_from(self, t: Bits, step: Bits) -> Seq<TimeMark>
        decreases left_to(self.limit(step), t),
    {
        if !at_most(t, self.limit(step)) {
            Seq::empty()
        } else {
            let here = if at_most(self.scroll, t) {
                seq![self.mark(t)]
            } else {
                Seq::empty()
            };
            if less(t, fadd(t, step)) {
                here + self.marks_from(fadd(t, step), step)
            } else {
                here
            }
        }
    }

    /// The marks from `from` on.
    fn walk(&self, from: Bits, step: Bits, limit: Bits) -> (list: Vec<TimeMark>)
        requires
            limit == self.limit(step),
        ensures
            list@ == self.marks_from(from, step),
    {
        let mut t: Bits = from;
        let ghost all = self.marks_from(t, step);
        let mut list: Vec<TimeMark> = Vec::new();
        let mut more: bool = true;
        while more && is_at_most(t, limit)
            invariant
                limit == self.limit(step),
                more ==> all == list@ + self.marks_from(t, step),
                !more ==> all == list@,
            decreases
                    (if more {
                        1int
                    } else {
                        0int
                    }),
                    left_to(limit, t),
        {
            let ghost before = list@;
            let ghost rest = self.marks_from(t, step);
            if is_at_most(self.scroll, t) {
                let part: Bits = divide_by(subtract(t, self.scroll), self.visible);
                list.push(TimeMark { t, x: add_to(self.left, multiply(part, self.width)) });
            }
            let next: Bits = add_to(t, step);
            if less_than(t, next) {
                proof {
                    assert(before + rest == list@ + self.marks_from(next, step));
                }
                t = next;
            } else {
                proof {
                    assert(before + rest == list@);
                }
                more = false;
            }
        }
        proof {
            if more {
                assert(self.marks_from(t, step) == Seq::<TimeMark>::empty());
                assert(all == list@);
            }
        }
        list
    }

    fn spacing(&self) -> (r: Bits)
        ensures
            r == self.raw_step(),
    {
        divide_by(self.visible, larger(divide_by(self.width, MARK_SPACING), TWO))
    }

    fn ends(&self, step: Bits) -> (r: (Bits, Bits))
        ensures
            r.0 == self.first(step),
            r.1 == self.limit(step),
    {
        let first: Bits = multiply(floor(divide_by(self.scroll, step)), step);
        (first, add_to(add_to(self.scroll, self.visible), multiply(step, MARK_SLACK)))
    }

    /// The marks of the ruler, each with its place.
    pub fn time_marks<M: Fn(Function, Bits) -> Bits>(&self, m: &M) -> (list: Vec<TimeMark>)
        requires
            is_total(m),
        ensures
            exists|step: Bits| #[trigger]
                is_nice_step(m, self.raw_step(), step) && list@ == self.marks_from(
                    self.first(step),
                    step,
                ),
    {
        let step: Bits = nice_time_step(m, self.spacing());
        let (first, limit): (Bits, Bits) = self.ends(step);
        self.walk(first, step, limit)
    }
}

// ---- Levels -----------------------------------------------------------------

/// The heights of an amplitude above and below the middle.
pub open spec fn mirrored(amp: Bits, y: Bits, h: Bits) -> (Bits, Bits) {
    let half = fmul(h, HALF);
    let mid = fadd(y, half);
    (fsub(mid, fmul(amp, half)), fadd(mid, fmul(amp, half)))
}

/// The heights of a level above and below the middle.
pub open spec fn is_level_pair<M: Fn(Function, Bits) -> Bits>(
    m: &M,
    db: Bits,
    y: Bits,
    h: Bits,
    pair: (Bits, Bits),
) -> bool {
    exists|amp: Bits| #[trigger] is_amplitude(m, db, amp) && pair == mirrored(amp, y, h)
}

fn mirror(amp: Bits, y: Bits, h: Bits) -> (r: (Bits, Bits))
    ensures
        r == mirrored(amp, y, h),
{
    let half: Bits = multiply(h, HALF);
    let mid: Bits = add_to(y, half);
    (subtract(mid, multiply(amp, half)), add_to(mid, multiply(amp, half)))
}

/// Where the ceiling of a zone is drawn, above and below the middle. A ceiling
/// above full scale is drawn at full scale.
pub fn ceiling_lines<M: Fn(Function, Bits) -> Bits>(m: &M, ceiling_db: Bits, y: Bits, h: Bits) -> (r: (Bits, Bits))
    requires
        is_total(m),
    ensures
        is_level_pair(m, fmin(ceiling_db, 0), y, h, r),
{
    let amp: Bits = db_to_amp(m, smaller(ceiling_db, 0));
    mirror(amp, y, h)
}

/// The levels that the ruler marks: 0, 3, 6, 12 and 24 decibels below full
/// scale.
pub open spec fn ruler_level(k: nat) -> Bits {
    if k == 0 {
        0
    } else if k == 1 {
        0xc040_0000
    } else if k == 2 {
        0xc0c0_0000
    } else if k == 3 {
        0xc140_0000
    } else {
        0xc1c0_0000
    }
}

/// The marks of the level ruler: each level, and its heights above and below
/// the middle.
pub fn level_marks<M: Fn(Function, Bits) -> Bits>(m: &M, y: Bits, h: Bits) -> (list: Vec<(Bits, (Bits, Bits))>)
    requires
        is_total(m),
    ensures
        list@.len() == LEVELS,
        forall|k: int| 0 <= k < LEVELS ==> (#[trigger] list@[k]).0 == ruler_level(k as nat),
        forall|k: int| 0 <= k < LEVELS ==> is_level_pair(m, (#[trigger] list@[k]).0, y, h, list@[k].1),
{
    let levels: [Bits; 5] = [0, 0xc040_0000, 0xc0c0_0000, 0xc140_0000, 0xc1c0_0000];
    let mut list: Vec<(Bits, (Bits, Bits))> = Vec::new();
    let mut k: usize = 0;
    while k < LEVELS
        invariant
            is_total(m),
            levels@.len() == LEVELS,
            forall|j: int| 0 <= j < LEVELS ==> #[trigger] levels@[j] == ruler_level(j as nat),
            k <= LEVELS,
            list@.len() == k,
            forall|j: int| 0 <= j < k ==> (#[trigger] list@[j]).0 == ruler_level(j as nat),
            forall|j: int| 0 <= j < k ==> is_level_pair(m, (#[trigger] list@[j]).0, y, h, list@[j].1),
        decreases LEVELS - k,
    {
        let db: Bits = levels[k];
        let amp: Bits = db_to_amp(m, db);
        list.push((db, mirror(amp, y, h)));
        k = k + 1;
    }
    list
}

// ---- The guide --------------------------------------------------------------

/// Where the guide is drawn, above and below the middle.
pub open spec fn guide_heights(amp: Bits, area: Rect) -> (Bits, Bits) {
    let half = fmul(area.h, HALF);
    let upper = fsub(fadd(area.y, half), fmul(amp, half));
    (upper, fsub(fadd(area.y, area.h), fsub(upper, area.y)))
}

/// Where the guide is drawn, above and below the middle.
pub fn guide_lines(amp: Bits, area: &Rect) -> (r: (Bits, Bits))
    ensures
        r == guide_heights(amp, *area),
{
    let half: Bits = multiply(area.h, HALF);
    let upper: Bits = subtract(add_to(area.y, half), multiply(amp, half));
    (upper, subtract(add_to(area.y, area.h), subtract(upper, area.y)))
}

/// `db` is the level of the amplitude that the guide was dragged to.
pub open spec fn is_guide_level<M: Fn(Function, Bits) -> Bits>(m: &M, amp: Bits, db: Bits) -> bool {
    exists|log: Bits| #[trigger] gives(m, Function::Log10, amp, log) && db == fmul(TWENTY, log)
}

/// The level of the amplitude that the guide was dragged to.
pub fn guide_level<M: Fn(Function, Bits) -> Bits>(m: &M, amp: Bits) -> (db: Bits)
    requires
        is_total(m),
    ensures
        is_guide_level(m, amp, db),
{
    let log: Bits = evaluate(m, Function::Log10, amp);
    multiply(TWENTY, log)
}

/// The dashes of a line from `x` up to `end`. They end where a dash and a gap
/// no longer move on.
pub open spec fn dashes_from(x: Bits, end: Bits, dash: Bits, gap: Bits) -> Seq<(Bits, Bits)>
    decreases left_to(end, x),
{
    if !less(x, end) {
        Seq::empty()
    } else {
        let here = seq![(x, fmin(fadd(x, dash), end))];
        let next = fadd(x, fadd(dash, gap));
        if less(x, next) {
            here + dashes_from(next, end, dash, gap)
        } else {
            here
        }
    }
}

/// The dashes of a line.
pub fn dashes(from: Bits, end: Bits, dash: Bits, gap: Bits) -> (list: Vec<(Bits, Bits)>)
    ensures
        list@ == dashes_from(from, end, dash, gap),
{
    let ghost all = dashes_from(from, end, dash, gap);
    let step: Bits = add_to(dash, gap);
    let mut list: Vec<(Bits, Bits)> = Vec::new();
    let mut x: Bits = from;
    let mut more: bool = true;
    while more && less_than(x, end)
        invariant
            step == fadd(dash, gap),
            more ==> all == list@ + dashes_from(x, end, dash, gap),
            !more ==> all == list@,
        decreases
                (if more {
                    1int
                } else {
                    0int
                }),
                left_to(end, x),
    {
        let ghost before = list@;
        let ghost rest = dashes_from(x, end, dash, gap);
        list.push((x, smaller(add_to(x, dash), end)));
        let next: Bits = add_to(x, step);
        if less_than(x, next) {
            proof {
                assert(before + rest == list@ + dashes_from(next, end, dash, gap));
            }
            x = next;
        } else {
            proof {
                assert(before + rest == list@);
            }
            more = false;
        }
    }
    proof {
        if more {
            assert(dashes_from(x, end, dash, gap) == Seq::<(Bits, Bits)>::empty());
            assert(all == list@);
        }
    }
    list
}

// ---- The wheel --------------------------------------------------------------

/// `factor` is how much the view is enlarged when the wheel turned by so many
/// lines: a quarter for each, and the inverse in the other direction.
pub open spec fn is_wheel_factor<M: Fn(Function, Bits) -> Bits>(m: &M, lines: Bits, factor: Bits) -> bool {
    exists|power: Bits| #[trigger]
        gives(m, Function::FiveFourthsTo, fabs(lines), power) && factor == (if less(0, lines) {
            power
        } else {
            fdiv(ONE, power)
        })
}

/// How much the view is enlarged when the wheel turned by so many lines.
pub fn wheel_factor<M: Fn(Function, Bits) -> Bits>(m: &M, lines: Bits) -> (factor: Bits)
    requires
        is_total(m),
    ensures
        is_wheel_factor(m, lines, factor),
{
    let power: Bits = evaluate(m, Function::FiveFourthsTo, absolute(lines));
    if less_than(0, lines) {
        power
    } else {
        divide_by(ONE, power)
    }
}

// ---- The map of the whole file ----------------------------------------------

/// A bar of the map: its top and its height.
pub open spec fn map_bar(mag: Bits, y: Bits, h: Bits) -> (Bits, Bits) {
    let tall = fmul(mag, fsub(h, TWO));
    (fsub(fsub(fadd(y, h), ONE), tall), fmax(tall, ONE))
}

/// `bar` is the bar of column `i` of `n`. Silence has none.
pub open spec fn is_map_bar<M: Fn(Function, Bits) -> Bits>(
    m: &M,
    env: Seq<(Bits, Bits)>,
    i: nat,
    n: nat,
    y: Bits,
    h: Bits,
    bar: Option<(Bits, Bits)>,
) -> bool {
    match map_level(env, i, n) {
        None => bar is None,
        Some(peak) => bar is Some && exists|mag: Bits| #[trigger]
            gives(m, Function::SixTenths, peak, mag) && bar->0 == map_bar(mag, y, h),
    }
}

/// The bars of the map, for every column. Quiet parts are lifted, so that they
/// can be found.
pub fn map_bars<M: Fn(Function, Bits) -> Bits>(m: &M, env: &Vec<(Bits, Bits)>, n: usize, y: Bits, h: Bits) -> (list:
    Vec<Option<(Bits, Bits)>>)
    requires
        is_total(m),
        env@.len() > 0,
    ensures
        list@.len() == n,
        forall|i: int| 0 <= i < n ==> is_map_bar(m, env@, i as nat, n as nat, y, h, #[trigger] list@[i]),
{
    let mut list: Vec<Option<(Bits, Bits)>> = Vec::new();
    let mut i: usize = 0;
    while i < n
        invariant
            is_total(m),
            env@.len() > 0,
            i <= n,
            list@.len() == i,
            forall|k: int|
                0 <= k < i ==> is_map_bar(m, env@, k as nat, n as nat, y, h, #[trigger] list@[k]),
        decreases n - i,
    {
        let bar: Option<(Bits, Bits)> = match map_level_at(env, i, n) {
            None => None,
            Some(peak) => {
                let mag: Bits = evaluate(m, Function::SixTenths, peak);
                let tall: Bits = multiply(mag, subtract(h, TWO));
                Some((subtract(subtract(add_to(y, h), ONE), tall), larger(tall, ONE)))
            },
        };
        list.push(bar);
        i = i + 1;
    }
    list
}

// ---- Laws -------------------------------------------------------------------

/// The marks of the time ruler lie in its window: none comes before it, and
/// none behind it by more than the slack.
pub proof fn law_marks_in_window(w: Window, t: Bits, step: Bits)
    ensures
        forall|k: int|
            0 <= k < w.marks_from(t, step).len() ==> at_most(
                w.scroll,
                (#[trigger] w.marks_from(t, step)[k]).t,
            ) && at_most(w.marks_from(t, step)[k].t, w.limit(step)),
    decreases left_to(w.limit(step), t),
{
    if at_most(t, w.limit(step)) && less(t, fadd(t, step)) {
        law_marks_in_window(w, fadd(t, step), step);
        let rest = w.marks_from(fadd(t, step), step);
        let all = w.marks_from(t, step);
        assert forall|k: int| 0 <= k < all.len() implies at_most(w.scroll, (#[trigger] all[k]).t) && at_most(
            all[k].t,
            w.limit(step),
        ) by {
            let n = all.len() - rest.len();
            if k >= n {
                assert(all[k] == rest[k - n]);
            }
        }
    }
}

} // verus!
