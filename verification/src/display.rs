//! Samples, meters, the map of the whole file and the other small displays,
//! as coordinates.

use vstd::prelude::*;
use crate::arith::{number, from_whole};
use crate::columns::{Quiet, CLIPPED, column, column_frames, lemma_full_scale};
use crate::detect::{local_mean, half_width, moving_average, top};
use crate::plan::{least, most};
use crate::scalar::{fadd, fsub, fmul, fdiv, fmax, fmin, fabs, negated, lemma_zero_one};
use crate::scalar::{add_to, subtract, multiply, divide_by, larger, smaller, absolute, neg};
use crate::single::{Bits, ONE, TWO, HALF, MILLIONTH, MINUS_ONE, less, less_than, at_most, is_at_most, clamped, clamp, lemma_magnitude_order};
use crate::waveform::Rect;

verus! {

pub const THREE: Bits = 0x4040_0000;
pub const FOUR: Bits = 0x4080_0000;
pub const FIVE: Bits = 0x40a0_0000;
pub const TEN: Bits = 0x4120_0000;
/// Points of the smooth curve from one sample to the next.
pub const CURVE_STEPS: usize = 8;
pub const CURVE_STEPS_NUMBER: Bits = 0x4100_0000;
/// A dot takes this share of the distance of two samples, within bounds.
pub const DOT_SHARE: Bits = 0x3e38_51ec;
/// A bar takes this share of the distance of two samples, within bounds.
pub const BAR_SHARE: Bits = 0x3ecc_cccd;
/// Pixels that the reduction is averaged over.
pub const REDUCTION_PIXELS: usize = 21;
/// A smaller reduction is not shown.
pub const REDUCTION_LEAST: Bits = 0x3ba3_d70a;
pub const REDUCTION_TALLEST: Bits = 0x4160_0000;
/// A meter goes on counting beyond full scale.
pub const METER_TOP: Bits = 0x3fc0_0000;
/// Where a meter turns from green to yellow.
pub const METER_WARNS: Bits = 0x3f4a_3d71;
/// A quieter column of the map stays empty.
pub const MAP_LEAST: Bits = 0x3727_c5ac;
/// The map marks the visible part from this zoom on.
pub const MAP_MARKS_FROM: Bits = 0x3f80_20c5;
/// The root of one half.
pub const DIAGONAL: Bits = 0x3f35_04f3;
/// Pixels between the circle of the goniometer and the edge of its column.
pub const SCOPE_MARGIN: Bits = 0x4160_0000;
/// The least radius of the circle.
pub const SCOPE_LEAST: Bits = 0x4100_0000;
/// The levels of the spectrum line.
pub const LINE_FLOOR: Bits = 0xc2a8_0000;
pub const LINE_SPAN: Bits = 0x42b4_0000;

/// The flags of the trim handles.
pub const TRIM_FLAG_W: Bits = 0x4110_0000;
pub const TRIM_FLAG_H: Bits = 0x4150_0000;
pub const TRIM_FLAG_MID: Bits = 0x40d0_0000;
/// The flags of the splits.
pub const SPLIT_FLAG_W: Bits = 0x4100_0000;
pub const SPLIT_FLAG_H: Bits = 0x4140_0000;

/// From where on a step of the ruler is two, five and ten.
pub const STEP_TO_TWO: Bits = 0x3fc0_0000;
pub const STEP_TO_FIVE: Bits = 0x4060_0000;
pub const STEP_TO_TEN: Bits = 0x40f0_0000;

/// A point of the screen.
#[derive(Clone, Copy, PartialEq, Eq, Debug, Structural)]
pub struct Point {
    pub x: Bits,
    pub y: Bits,
}

// ---- Samples ----------------------------------------------------------------

/// The place where samples are drawn: the left edge, the width, the middle and
/// half the height.
#[derive(Clone, Copy, PartialEq, Eq, Debug, Structural)]
pub struct Area {
    pub left: Bits,
    pub width: Bits,
    pub mid: Bits,
    pub half: Bits,
}

pub open spec fn sample_x(a: Area, i: nat, start: nat, end: nat) -> Bits {
    fadd(a.left, fmul(fdiv(number((i - start) as nat), number((end - start) as nat)), a.width))
}

pub open spec fn sample_y(a: Area, v: Bits) -> Bits {
    fsub(a.mid, fmul(clamped(v, MINUS_ONE, ONE), a.half))
}

/// The points of the samples from `start` on up to `end`.
pub open spec fn sample_points(s: Seq<Bits>, start: nat, end: nat, a: Area) -> Seq<Point> {
    Seq::new(
        (end - start) as nat,
        |k: int|
            Point {
                x: sample_x(a, (start + k) as nat, start, end),
                y: sample_y(a, s[start + k]),
            },
    )
}

fn place_x(a: &Area, i: usize, start: usize, end: usize) -> (r: Bits)
    requires
        start <= i <= end,
    ensures
        r == sample_x(*a, i as nat, start as nat, end as nat),
{
    let rel: Bits = divide_by(from_whole((i - start) as u64), from_whole((end - start) as u64));
    add_to(a.left, multiply(rel, a.width))
}

fn place_y(a: &Area, v: Bits) -> (r: Bits)
    ensures
        r == sample_y(*a, v),
{
    proof {
        lemma_full_scale();
    }
    subtract(a.mid, multiply(clamp(v, MINUS_ONE, ONE), a.half))
}

/// The points of the samples from `start` on up to `end`: the corners of the
/// waveform line, and the centres of the dots.
pub fn line_points(s: &Vec<Bits>, start: usize, end: usize, a: &Area) -> (list: Vec<Point>)
    requires
        start <= end <= s@.len(),
    ensures
        list@ == sample_points(s@, start as nat, end as nat, *a),
{
    let mut list: Vec<Point> = Vec::new();
    let mut i: usize = start;
    while i < end
        invariant
            start <= i <= end <= s@.len(),
            list@ =~= sample_points(s@, start as nat, end as nat, *a).take(i - start),
        decreases end - i,
    {
        list.push(Point { x: place_x(a, i, start, end), y: place_y(a, s[i]) });
        i = i + 1;
    }
    list
}

/// The size of a sample's dot.
pub open spec fn dot_size(width: Bits, n: nat) -> Bits {
    clamped(fmul(fdiv(width, number(most(n, 1))), DOT_SHARE), TWO, FOUR)
}

/// The size of a sample's dot among `n`.
pub fn dot_radius(width: Bits, n: usize) -> (r: Bits)
    ensures
        r == dot_size(width, n as nat),
{
    proof {
        lemma_magnitude_order(TWO, FOUR);
    }
    let count: usize = if n < 1 {
        1
    } else {
        n
    };
    clamp(multiply(divide_by(width, from_whole(count as u64)), DOT_SHARE), TWO, FOUR)
}

/// One coordinate of the smooth curve between `p1` and `p2`, at `t` from zero
/// to one. The neighbours give the slopes.
pub open spec fn spline(p0: Bits, p1: Bits, p2: Bits, p3: Bits, t: Bits) -> Bits {
    let t2 = fmul(t, t);
    let t3 = fmul(t2, t);
    let square = fsub(fadd(fsub(fmul(TWO, p0), fmul(FIVE, p1)), fmul(FOUR, p2)), p3);
    let cube = fadd(fsub(fadd(negated(p0), fmul(THREE, p1)), fmul(THREE, p2)), p3);
    fmul(
        HALF,
        fadd(
            fadd(
                fadd(fmul(TWO, p1), fmul(fadd(negated(p0), p2), t)),
                fmul(square, t2),
            ),
            fmul(cube, t3),
        ),
    )
}

fn spline_at(p0: Bits, p1: Bits, p2: Bits, p3: Bits, t: Bits) -> (r: Bits)
    ensures
        r == spline(p0, p1, p2, p3, t),
{
    let t2: Bits = multiply(t, t);
    let t3: Bits = multiply(t2, t);
    let square: Bits = subtract(
        add_to(subtract(multiply(TWO, p0), multiply(FIVE, p1)), multiply(FOUR, p2)),
        p3,
    );
    let cube: Bits = add_to(
        subtract(add_to(neg(p0), multiply(THREE, p1)), multiply(THREE, p2)),
        p3,
    );
    let straight: Bits = add_to(multiply(TWO, p1), multiply(add_to(neg(p0), p2), t));
    multiply(HALF, add_to(add_to(straight, multiply(square, t2)), multiply(cube, t3)))
}

/// A point, the first or the last where there is none at that place.
pub open spec fn point_near(p: Seq<Point>, i: int) -> Point {
    if i < 0 {
        p[0]
    } else if i >= p.len() {
        p.last()
    } else {
        p[i]
    }
}

/// Point `k` of the smooth curve through the samples, counted from zero.
pub open spec fn curve_point(p: Seq<Point>, k: int) -> Point {
    if k == 0 {
        p[0]
    } else {
        let i = (k - 1) / CURVE_STEPS as int;
        let step = (k - 1) % CURVE_STEPS as int + 1;
        let t = fdiv(number(step as nat), CURVE_STEPS_NUMBER);
        let a = point_near(p, i - 1);
        let b = p[i];
        let c = point_near(p, i + 1);
        let d = point_near(p, i + 2);
        Point { x: spline(a.x, b.x, c.x, d.x, t), y: spline(a.y, b.y, c.y, d.y, t) }
    }
}

/// The smooth curve through the samples, as the corners of a line.
pub open spec fn curve_through(p: Seq<Point>) -> Seq<Point> {
    if p.len() == 0 {
        Seq::empty()
    } else {
        Seq::new(1 + ((p.len() - 1) * CURVE_STEPS) as nat, |k: int| curve_point(p, k))
    }
}

/// The corner of the smooth curve `step` steps behind sample `i`.
fn curve_corner(p: &Vec<Point>, i: usize, step: usize) -> (r: Point)
    requires
        i + 1 < p@.len(),
        1 <= step <= CURVE_STEPS,
    ensures
        r == curve_point(p@, i * CURVE_STEPS + step),
{
    let n: usize = p.len();
    let a: Point = if i == 0 {
        p[0]
    } else {
        p[i - 1]
    };
    let b: Point = p[i];
    let c: Point = p[i + 1];
    let d: Point = if n - i > 2 {
        p[i + 2]
    } else {
        p[n - 1]
    };
    let t: Bits = divide_by(from_whole(step as u64), CURVE_STEPS_NUMBER);
    proof {
        let k = i * CURVE_STEPS + step;
        assert((k - 1) / CURVE_STEPS as int == i && (k - 1) % CURVE_STEPS as int == step - 1);
    }
    Point { x: spline_at(a.x, b.x, c.x, d.x, t), y: spline_at(a.y, b.y, c.y, d.y, t) }
}

/// The smooth curve through the samples, as the corners of a line.
pub fn smooth_curve(p: &Vec<Point>) -> (out: Vec<Point>)
    ensures
        out@ == curve_through(p@),
{
    let mut out: Vec<Point> = Vec::new();
    let n: usize = p.len();
    if n == 0 {
        return out;
    }
    out.push(p[0]);
    let mut i: usize = 0;
    let mut step: usize = 1;
    assert(out@ =~= curve_through(p@).take(1));
    while i < n - 1
        invariant
            1 <= n == p@.len(),
            i <= n - 1,
            1 <= step <= CURVE_STEPS,
            i == n - 1 ==> step == 1,
            out@.len() == i * CURVE_STEPS + step,
            out@ =~= curve_through(p@).take(i * CURVE_STEPS + step),
        decreases n - i, CURVE_STEPS - step,
    {
        let q: Point = curve_corner(p, i, step);
        proof {
            let k = i * CURVE_STEPS + step;
            assert(k < 1 + (n - 1) * CURVE_STEPS);
            assert(curve_through(p@)[k] == q);
            assert(curve_through(p@).take(k + 1) =~= curve_through(p@).take(k).push(q));
        }
        out.push(q);
        if step == CURVE_STEPS {
            i = i + 1;
            step = 1;
        } else {
            step = step + 1;
        }
    }
    assert(curve_through(p@).take(1 + (n - 1) * CURVE_STEPS) =~= curve_through(p@));
    out
}

/// The column of an envelope point: its place, and its upper and lower end.
pub open spec fn envelope_bar(a: Area, i: nat, n: nat, p: (Bits, Bits)) -> (Bits, Bits, Bits) {
    (
        fadd(a.left, fmul(fdiv(number(i), number(n)), a.width)),
        fsub(a.mid, fmul(p.1, a.half)),
        fsub(a.mid, fmul(p.0, a.half)),
    )
}

/// The column of point `i` of `n` of an envelope.
pub fn envelope_column(a: &Area, i: usize, n: usize, p: (Bits, Bits)) -> (r: (Bits, Bits, Bits))
    ensures
        r == envelope_bar(*a, i as nat, n as nat, p),
{
    let rel: Bits = divide_by(from_whole(i as u64), from_whole(n as u64));
    (
        add_to(a.left, multiply(rel, a.width)),
        subtract(a.mid, multiply(p.1, a.half)),
        subtract(a.mid, multiply(p.0, a.half)),
    )
}

// ---- Markers ----------------------------------------------------------------

/// A triangle at a marker line.
#[derive(Clone, Copy, PartialEq, Eq, Debug, Structural)]
pub struct Flag {
    pub a: Point,
    pub b: Point,
    pub tip: Point,
}

/// A marker: its upper and its lower flag.
#[derive(Clone, Copy, PartialEq, Eq, Debug, Structural)]
pub struct Marker {
    pub x: Bits,
    pub upper: Flag,
    pub lower: Flag,
}

/// The flags of a trim handle point into the exported part.
pub open spec fn trim_flags(x: Bits, y: Bits, h: Bits, to_right: bool) -> Marker {
    let end = fadd(y, h);
    let tip = fadd(
        x,
        if to_right {
            TRIM_FLAG_W
        } else {
            negated(TRIM_FLAG_W)
        },
    );
    Marker {
        x,
        upper: Flag {
            a: Point { x, y },
            b: Point { x, y: fadd(y, TRIM_FLAG_H) },
            tip: Point { x: tip, y: fadd(y, TRIM_FLAG_MID) },
        },
        lower: Flag {
            a: Point { x, y: end },
            b: Point { x, y: fsub(end, TRIM_FLAG_H) },
            tip: Point { x: tip, y: fsub(end, TRIM_FLAG_MID) },
        },
    }
}

/// Is a marker at `x` within `slack` of the wave area?
pub open spec fn marker_seen(x: Bits, left: Bits, width: Bits, slack: Bits) -> bool {
    !less(x, fsub(left, slack)) && !less(fadd(fadd(left, width), slack), x)
}

fn is_marker_seen(x: Bits, left: Bits, width: Bits, slack: Bits) -> (r: bool)
    ensures
        r == marker_seen(x, left, width, slack),
{
    !less_than(x, subtract(left, slack)) && !less_than(add_to(add_to(left, width), slack), x)
}

/// A trim handle in a wave area; none outside of it.
pub fn trim_marker(x: Bits, left: Bits, y: Bits, w: Bits, h: Bits, to_right: bool) -> (r: Option<Marker>)
    ensures
        r == (if marker_seen(x, left, w, FOUR) {
            Some(trim_flags(x, y, h, to_right))
        } else {
            None
        }),
{
    if !is_marker_seen(x, left, w, FOUR) {
        return None;
    }
    let end: Bits = add_to(y, h);
    let tip: Bits = if to_right {
        add_to(x, TRIM_FLAG_W)
    } else {
        add_to(x, neg(TRIM_FLAG_W))
    };
    Some(
        Marker {
            x,
            upper: Flag {
                a: Point { x, y },
                b: Point { x, y: add_to(y, TRIM_FLAG_H) },
                tip: Point { x: tip, y: add_to(y, TRIM_FLAG_MID) },
            },
            lower: Flag {
                a: Point { x, y: end },
                b: Point { x, y: subtract(end, TRIM_FLAG_H) },
                tip: Point { x: tip, y: subtract(end, TRIM_FLAG_MID) },
            },
        },
    )
}

/// The flags of a split point along its line.
pub open spec fn split_flags(x: Bits, y: Bits, h: Bits) -> Marker {
    let end = fadd(y, h);
    let a = fsub(x, SPLIT_FLAG_W);
    let b = fadd(x, SPLIT_FLAG_W);
    Marker {
        x,
        upper: Flag {
            a: Point { x: a, y },
            b: Point { x: b, y },
            tip: Point { x, y: fadd(y, SPLIT_FLAG_H) },
        },
        lower: Flag {
            a: Point { x: a, y: end },
            b: Point { x: b, y: end },
            tip: Point { x, y: fsub(end, SPLIT_FLAG_H) },
        },
    }
}

/// A split in a wave area; none outside of it.
pub fn split_marker(x: Bits, left: Bits, y: Bits, w: Bits, h: Bits) -> (r: Option<Marker>)
    ensures
        r == (if marker_seen(x, left, w, TEN) {
            Some(split_flags(x, y, h))
        } else {
            None
        }),
{
    if !is_marker_seen(x, left, w, TEN) {
        return None;
    }
    let end: Bits = add_to(y, h);
    let a: Bits = subtract(x, SPLIT_FLAG_W);
    let b: Bits = add_to(x, SPLIT_FLAG_W);
    Some(
        Marker {
            x,
            upper: Flag {
                a: Point { x: a, y },
                b: Point { x: b, y },
                tip: Point { x, y: add_to(y, SPLIT_FLAG_H) },
            },
            lower: Flag {
                a: Point { x: a, y: end },
                b: Point { x: b, y: end },
                tip: Point { x, y: subtract(end, SPLIT_FLAG_H) },
            },
        },
    )
}

// ---- What was cut off -------------------------------------------------------

/// A filled rectangle.
#[derive(Clone, Copy, PartialEq, Eq, Debug, Structural)]
pub struct Block {
    pub x: Bits,
    pub y: Bits,
    pub w: Bits,
    pub h: Bits,
}

/// The width of the bars that show what was cut off a sample.
pub open spec fn bar_width(a: Area, start: nat, end: nat) -> Bits {
    clamped(
        fmul(fdiv(a.width, fmax(number((end - start) as nat), ONE)), BAR_SHARE),
        ONE,
        TWO,
    )
}

/// The bar between a sample and what became of it. None where the two hardly
/// differ.
pub open spec fn cut_bar(a: Area, input: Bits, output: Bits, i: nat, start: nat, end: nat) -> Option<Block> {
    let before = clamped(input, MINUS_ONE, ONE);
    let after = clamped(output, MINUS_ONE, ONE);
    if less(fabs(fsub(before, after)), CLIPPED) {
        None
    } else {
        let ya = fsub(a.mid, fmul(before, a.half));
        let yb = fsub(a.mid, fmul(after, a.half));
        let (upper, lower) = if less(ya, yb) {
            (ya, yb)
        } else {
            (yb, ya)
        };
        let w = bar_width(a, start, end);
        Some(
            Block {
                x: fsub(sample_x(a, i, start, end), fmul(w, HALF)),
                y: upper,
                w,
                h: fsub(lower, upper),
            },
        )
    }
}

/// The bar of sample `i`; none in a fade and outside the exported part.
pub fn cut_at(
    a: &Area,
    input: &Vec<Bits>,
    output: &Vec<Bits>,
    quiet: &Quiet,
    i: usize,
    start: usize,
    end: usize,
) -> (r: Option<Block>)
    requires
        start <= i < end,
        end <= input@.len(),
        end <= output@.len(),
    ensures
        r == (if quiet.covers(i as nat) {
            None
        } else {
            cut_bar(*a, input@[i as int], output@[i as int], i as nat, start as nat, end as nat)
        }),
{
    if quiet.hides(i) {
        return None;
    }
    proof {
        lemma_full_scale();
        lemma_magnitude_order(ONE, TWO);
    }
    let before: Bits = clamp(input[i], MINUS_ONE, ONE);
    let after: Bits = clamp(output[i], MINUS_ONE, ONE);
    if less_than(absolute(subtract(before, after)), CLIPPED) {
        return None;
    }
    let ya: Bits = subtract(a.mid, multiply(before, a.half));
    let yb: Bits = subtract(a.mid, multiply(after, a.half));
    let (upper, lower): (Bits, Bits) = if less_than(ya, yb) {
        (ya, yb)
    } else {
        (yb, ya)
    };
    let per: Bits = divide_by(a.width, larger(from_whole((end - start) as u64), ONE));
    let w: Bits = clamp(multiply(per, BAR_SHARE), ONE, TWO);
    Some(
        Block {
            x: subtract(place_x(a, i, start, end), multiply(w, HALF)),
            y: upper,
            w,
            h: subtract(lower, upper),
        },
    )
}

// ---- Reduction --------------------------------------------------------------

/// How much of the peak a column of pixels lost.
pub open spec fn column_loss(
    input: Seq<Bits>,
    output: Seq<Bits>,
    px: nat,
    pixels: nat,
    start: nat,
    end: nat,
) -> Bits {
    let (a, b) = column_frames(px, pixels, start, end);
    fmax(fsub(top(input, a as int, b - a), top(output, a as int, b - a)), 0)
}

pub open spec fn losses(
    input: Seq<Bits>,
    output: Seq<Bits>,
    pixels: nat,
    start: nat,
    end: nat,
) -> Seq<Bits> {
    Seq::new(pixels, |px: int| column_loss(input, output, px as nat, pixels, start, end))
}

fn peak_in(s: &Vec<Bits>, a: usize, b: usize) -> (r: Bits)
    requires
        a <= b <= s@.len(),
    ensures
        r == top(s@, a as int, b - a),
{
    let mut peak: Bits = 0;
    let mut i: usize = a;
    while i < b
        invariant
            a <= i <= b <= s@.len(),
            peak == top(s@, a as int, i - a),
        decreases b - i,
    {
        let v: Bits = absolute(s[i]);
        if less_than(peak, v) {
            peak = v;
        }
        i = i + 1;
    }
    peak
}

/// The loss of every column of pixels.
fn column_losses(input: &Vec<Bits>, output: &Vec<Bits>, pixels: usize, start: usize, end: usize) -> (raw:
    Vec<Bits>)
    requires
        start < end,
        end <= input@.len(),
        end <= output@.len(),
    ensures
        raw@ == losses(input@, output@, pixels as nat, start as nat, end as nat),
{
    let mut raw: Vec<Bits> = Vec::new();
    let mut px: usize = 0;
    while px < pixels
        invariant
            start < end,
            end <= input@.len(),
            end <= output@.len(),
            px <= pixels,
            raw@ =~= losses(input@, output@, pixels as nat, start as nat, end as nat).take(px as int),
        decreases pixels - px,
    {
        let (a, b): (usize, usize) = column(px, pixels, start, end);
        raw.push(larger(subtract(peak_in(input, a, b), peak_in(output, a, b)), 0));
        px = px + 1;
    }
    raw
}

/// The losses, each averaged over its neighbours.
pub open spec fn averaged(raw: Seq<Bits>) -> Seq<Bits> {
    Seq::new(raw.len(), |i: int| local_mean(raw, half_width(REDUCTION_PIXELS as nat), i as nat))
}

/// The loss of every column of pixels, averaged over its neighbours.
pub fn reduction(input: &Vec<Bits>, output: &Vec<Bits>, pixels: usize, start: usize, end: usize) -> (out:
    Vec<Bits>)
    requires
        start < end,
        end <= input@.len(),
        end <= output@.len(),
    ensures
        out@ == averaged(losses(input@, output@, pixels as nat, start as nat, end as nat)),
{
    let raw: Vec<Bits> = column_losses(input, output, pixels, start, end);
    moving_average(&raw, REDUCTION_PIXELS)
}

/// The bar of a reduction, whose root is given. None where it is negligible.
pub open spec fn reduction_bar(r: Bits, root: Bits) -> Option<Bits> {
    if at_most(r, REDUCTION_LEAST) {
        None
    } else {
        Some(fmin(fmul(root, REDUCTION_TALLEST), REDUCTION_TALLEST))
    }
}

/// The height of the bar of a reduction, whose root is given.
pub fn reduction_height(r: Bits, root: Bits) -> (h: Option<Bits>)
    ensures
        h == reduction_bar(r, root),
{
    if is_at_most(r, REDUCTION_LEAST) {
        None
    } else {
        Some(smaller(multiply(root, REDUCTION_TALLEST), REDUCTION_TALLEST))
    }
}

// ---- Meters and rulers ------------------------------------------------------

/// The colour of a meter.
#[derive(Clone, Copy, PartialEq, Eq, Debug, Structural)]
pub enum MeterColour {
    Green,
    Yellow,
    Red,
}

pub open spec fn meter_colour(amp: Bits) -> MeterColour {
    if at_most(ONE, amp) {
        MeterColour::Red
    } else if at_most(METER_WARNS, amp) {
        MeterColour::Yellow
    } else {
        MeterColour::Green
    }
}

/// The filled width of a meter.
pub open spec fn meter_width(peak: Bits, width: Bits) -> Bits {
    fmul(fmin(fdiv(clamped(peak, 0, METER_TOP), ONE), ONE), width)
}

/// The filled width of a meter, and its colour.
pub fn meter_bar(peak: Bits, width: Bits) -> (r: (Bits, MeterColour))
    ensures
        r.0 == meter_width(peak, width),
        r.1 == meter_colour(clamped(peak, 0, METER_TOP)),
{
    proof {
        lemma_magnitude_order(0, METER_TOP);
    }
    let amp: Bits = clamp(peak, 0, METER_TOP);
    let filled: Bits = multiply(smaller(divide_by(amp, ONE), ONE), width);
    let colour: MeterColour = if is_at_most(ONE, amp) {
        MeterColour::Red
    } else if is_at_most(METER_WARNS, amp) {
        MeterColour::Yellow
    } else {
        MeterColour::Green
    };
    (filled, colour)
}

/// A step of one, two, five or ten.
pub open spec fn nice_factor(mantissa: Bits) -> Bits {
    if less(mantissa, STEP_TO_TWO) {
        ONE
    } else if less(mantissa, STEP_TO_FIVE) {
        TWO
    } else if less(mantissa, STEP_TO_TEN) {
        FIVE
    } else {
        TEN
    }
}

// ---- The spectrum line ------------------------------------------------------

/// The height of a level in the spectrum.
pub open spec fn level_height(db: Bits, y: Bits, h: Bits) -> Bits {
    fadd(y, fmul(fsub(ONE, clamped(fdiv(fsub(db, LINE_FLOOR), LINE_SPAN), 0, ONE)), h))
}

/// The height of a level in the spectrum.
pub fn db_to_y(db: Bits, y: Bits, h: Bits) -> (r: Bits)
    ensures
        r == level_height(db, y, h),
{
    proof {
        lemma_zero_one();
    }
    let t: Bits = clamp(divide_by(subtract(db, LINE_FLOOR), LINE_SPAN), 0, ONE);
    add_to(y, multiply(subtract(ONE, t), h))
}

/// Did processing add energy between two bins, or at least take none away?
pub open spec fn adds_energy(before: (Bits, Bits), after: (Bits, Bits)) -> bool {
    at_most(0, fadd(fsub(after.0, before.0), fsub(after.1, before.1)))
}

/// Did processing add energy between two bins?
pub fn energy_added(before: (Bits, Bits), after: (Bits, Bits)) -> (r: bool)
    ensures
        r == adds_energy(before, after),
{
    is_at_most(0, add_to(subtract(after.0, before.0), subtract(after.1, before.1)))
}

// ---- The goniometer ---------------------------------------------------------

/// The circle around the dots: its centre and its radius.
pub open spec fn scope_circle(column: Rect) -> (Point, Bits) {
    let half_w = fmul(column.w, HALF);
    let half_h = fmul(column.h, HALF);
    (
        Point { x: fadd(column.x, half_w), y: fadd(column.y, half_h) },
        fmax(fmin(fsub(half_h, SCOPE_MARGIN), fsub(half_w, SCOPE_MARGIN)), SCOPE_LEAST),
    )
}

/// The circle around the dots.
pub fn gonio_circle(column: &Rect) -> (r: (Point, Bits))
    ensures
        r == scope_circle(*column),
{
    let half_w: Bits = multiply(column.w, HALF);
    let half_h: Bits = multiply(column.h, HALF);
    let room: Bits = smaller(subtract(half_h, SCOPE_MARGIN), subtract(half_w, SCOPE_MARGIN));
    (
        Point { x: add_to(column.x, half_w), y: add_to(column.y, half_h) },
        larger(room, SCOPE_LEAST),
    )
}

/// The dot of a stereo sample: mono stands upright, inverted phase lies.
pub open spec fn scope_dot(centre: Point, radius: Bits, l: Bits, r: Bits) -> Point {
    Point {
        x: fadd(centre.x, fmul(fmul(fsub(l, r), DIAGONAL), radius)),
        y: fsub(centre.y, fmul(fmul(fadd(l, r), DIAGONAL), radius)),
    }
}

/// The dot of a stereo sample.
pub fn gonio_point(centre: Point, radius: Bits, l: Bits, r: Bits) -> (p: Point)
    ensures
        p == scope_dot(centre, radius, l, r),
{
    let side: Bits = multiply(subtract(l, r), DIAGONAL);
    let mid: Bits = multiply(add_to(l, r), DIAGONAL);
    Point {
        x: add_to(centre.x, multiply(side, radius)),
        y: subtract(centre.y, multiply(mid, radius)),
    }
}

// ---- The map of the whole file ----------------------------------------------

/// The points of the envelope in column `i` of `n`.
pub open spec fn map_points(i: nat, n: nat, len: nat) -> (nat, nat) {
    let a = i * len / n;
    (a, least(most((i + 1) * len / n, a + 1), len))
}

/// The points of the envelope in column `i` of `n`.
pub fn map_column(i: usize, n: usize, len: usize) -> (r: (usize, usize))
    requires
        i < n,
        len > 0,
    ensures
        (r.0 as nat, r.1 as nat) == map_points(i as nat, n as nat, len as nat),
        r.0 < r.1 <= len,
{
    let l: u128 = len as u128;
    proof {
        assert(i * len <= usize::MAX * usize::MAX) by (nonlinear_arith)
            requires
                i <= usize::MAX,
                len <= usize::MAX,
        ;
        assert((i + 1) * len <= usize::MAX * usize::MAX) by (nonlinear_arith)
            requires
                i + 1 <= usize::MAX,
                len <= usize::MAX,
        ;
        assert(usize::MAX * usize::MAX <= 0xffff_ffff_ffff_ffff * 0xffff_ffff_ffff_ffff) by (nonlinear_arith)
            requires
                usize::MAX <= 0xffff_ffff_ffff_ffff,
        ;
        assert(i * len / n as int <= len && i * len / (n as int) < len) by (nonlinear_arith)
            requires
                0 <= i < n,
                len > 0,
        ;
        assert((i + 1) * len / n as int <= len) by (nonlinear_arith)
            requires
                0 <= i < n,
                len > 0,
        ;
        assert(0 <= i * len / n as int) by (nonlinear_arith)
            requires
                0 <= i < n,
                len > 0,
        ;
    }
    let a: usize = (i as u128 * l / n as u128) as usize;
    let c: usize = ((i as u128 + 1) * l / n as u128) as usize;
    let b: usize = if c < a + 1 {
        a + 1
    } else {
        c
    };
    (a, b)
}

/// The peak of the points of an envelope from `a` on up to `b`.
pub open spec fn map_peak(env: Seq<(Bits, Bits)>, a: int, b: int) -> Bits
    decreases b - a,
{
    if b <= a {
        0
    } else {
        fmax(fmax(map_peak(env, a, b - 1), fabs(env[b - 1].0)), fabs(env[b - 1].1))
    }
}

/// The level of column `i` of `n` of the map, up to full scale. None where the
/// column stays empty.
pub open spec fn map_level(env: Seq<(Bits, Bits)>, i: nat, n: nat) -> Option<Bits> {
    let (a, b) = map_points(i, n, env.len());
    let peak = map_peak(env, a as int, b as int);
    if at_most(peak, MAP_LEAST) {
        None
    } else {
        Some(clamped(peak, 0, ONE))
    }
}

/// The level of column `i` of `n` of the map.
pub fn map_level_at(env: &Vec<(Bits, Bits)>, i: usize, n: usize) -> (r: Option<Bits>)
    requires
        i < n,
        env@.len() > 0,
    ensures
        r == map_level(env@, i as nat, n as nat),
{
    let (a, b): (usize, usize) = map_column(i, n, env.len());
    let mut peak: Bits = 0;
    let mut k: usize = a;
    while k < b
        invariant
            a <= k <= b <= env@.len(),
            peak == map_peak(env@, a as int, k as int),
        decreases b - k,
    {
        peak = larger(larger(peak, absolute(env[k].0)), absolute(env[k].1));
        k = k + 1;
    }
    if is_at_most(peak, MAP_LEAST) {
        None
    } else {
        proof {
            lemma_zero_one();
        }
        Some(clamp(peak, 0, ONE))
    }
}

/// The place of a time on the map.
pub open spec fn map_x(t: Bits, duration: Bits, x: Bits, w: Bits) -> Bits {
    fadd(x, fmul(clamped(fdiv(t, fmax(duration, MILLIONTH)), 0, ONE), w))
}

/// The place of a time on the map.
pub fn map_place(t: Bits, duration: Bits, x: Bits, w: Bits) -> (r: Bits)
    ensures
        r == map_x(t, duration, x, w),
{
    proof {
        lemma_zero_one();
    }
    add_to(x, multiply(clamp(divide_by(t, larger(duration, MILLIONTH)), 0, ONE), w))
}

/// The marks of the visible part on the map: the width of the dark part left of
/// it, the dark part right of it by its edge and width, and the box.
#[derive(Clone, Copy, PartialEq, Eq, Debug, Structural)]
pub struct Marks {
    pub left: Option<Bits>,
    pub right: Option<Bits>,
    pub from: Bits,
    pub to: Bits,
    pub width: Bits,
}

/// The marks of the visible part. None while all of the file is visible.
pub open spec fn marks(zoom: Bits, from: Bits, to: Bits, x: Bits, w: Bits) -> Option<Marks> {
    if less(MAP_MARKS_FROM, zoom) {
        Some(
            Marks {
                left: if less(x, from) {
                    Some(fsub(from, x))
                } else {
                    None
                },
                right: if less(to, fadd(x, w)) {
                    Some(fsub(fadd(x, w), to))
                } else {
                    None
                },
                from,
                to,
                width: fmax(fsub(to, from), TWO),
            },
        )
    } else {
        None
    }
}

/// The marks of the visible part, from `scroll` on for `visible` seconds.
pub fn map_marks(zoom: Bits, scroll: Bits, visible: Bits, duration: Bits, x: Bits, w: Bits) -> (r: Option<
    Marks,
>)
    ensures
        r == marks(
            zoom,
            map_x(scroll, duration, x, w),
            map_x(fadd(scroll, visible), duration, x, w),
            x,
            w,
        ),
{
    if !less_than(MAP_MARKS_FROM, zoom) {
        return None;
    }
    let from: Bits = map_place(scroll, duration, x, w);
    let to: Bits = map_place(add_to(scroll, visible), duration, x, w);
    let edge: Bits = add_to(x, w);
    let left: Option<Bits> = if less_than(x, from) {
        Some(subtract(from, x))
    } else {
        None
    };
    let right: Option<Bits> = if less_than(to, edge) {
        Some(subtract(edge, to))
    } else {
        None
    };
    Some(Marks { left, right, from, to, width: larger(subtract(to, from), TWO) })
}

// ---- Laws -------------------------------------------------------------------

/// The columns of the map cover the envelope: it begins with the first column
/// and ends with the last, and no point lies between two columns.
pub proof fn law_map_covers(i: nat, n: nat, len: nat)
    requires
        i < n,
        0 < n,
        0 < len,
    ensures
        map_points(0, n, len).0 == 0,
        i + 1 == n ==> map_points(i, n, len).1 == len,
        i + 1 < n ==> map_points(i + 1, n, len).0 <= map_points(i, n, len).1,
{
    assert(0 * len / n == 0) by (nonlinear_arith)
        requires
            n > 0,
    ;
    if i + 1 == n {
        assert(n * len / n == len) by (nonlinear_arith)
            requires
                n > 0,
        ;
        assert((i + 1) * len == n * len) by (nonlinear_arith)
            requires
                i + 1 == n,
        ;
    } else {
        assert((i + 1) * len / n <= len) by (nonlinear_arith)
            requires
                i + 1 < n,
                len > 0,
        ;
    }
}

} // verus!
