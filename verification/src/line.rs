//! The plot of a spectrum as a line: where the bins lie, and what processing
//! added or took away between them.

use vstd::prelude::*;
use crate::arith::{number, from_whole};
use crate::display::{Point, level_height, db_to_y, adds_energy, energy_added};
use crate::functions::{Function, is_total, gives, evaluate};
use crate::scalar::{fadd, fsub, fmul, fdiv};
use crate::scalar::{add_to, subtract, multiply, divide_by};
use crate::scale::Scale;
use crate::single::{Bits, less, less_than};

verus! {

/// Frequencies that the grid marks.
pub const GRID: usize = 14;

// ---- Places -----------------------------------------------------------------

/// The frequency of a bin.
pub open spec fn bin_hz(i: nat, bins: nat, nyquist: Bits) -> Bits {
    fmul(fdiv(number(i), number(bins)), nyquist)
}

/// `x` is where a frequency lies in a plot.
pub open spec fn is_place<M: Fn(Function, Bits) -> Bits>(
    m: &M,
    s: Scale,
    hz: Bits,
    left: Bits,
    width: Bits,
    x: Bits,
) -> bool {
    exists|log: Bits| #[trigger]
        gives(m, Function::Log10, hz, log) && x == fadd(
            left,
            fmul(fdiv(fsub(log, s.log_low), fsub(s.log_high, s.log_low)), width),
        )
}

fn place<M: Fn(Function, Bits) -> Bits>(m: &M, s: &Scale, hz: Bits, left: Bits, width: Bits) -> (x: Bits)
    requires
        is_total(m),
    ensures
        is_place(m, *s, hz, left, width, x),
{
    let log: Bits = evaluate(m, Function::Log10, hz);
    let part: Bits = divide_by(subtract(log, s.log_low), subtract(s.log_high, s.log_low));
    add_to(left, multiply(part, width))
}

fn hz_of(i: usize, bins: usize, nyquist: Bits) -> (r: Bits)
    ensures
        r == bin_hz(i as nat, bins as nat, nyquist),
{
    multiply(divide_by(from_whole(i as u64), from_whole(bins as u64)), nyquist)
}

/// Where every bin of a spectrum lies in a plot.
pub fn bin_places<M: Fn(Function, Bits) -> Bits>(m: &M, s: &Scale, bins: usize, left: Bits, width: Bits) -> (xs:
    Vec<Bits>)
    requires
        is_total(m),
    ensures
        xs@.len() == bins,
        forall|i: int|
            0 <= i < bins ==> is_place(
                m,
                *s,
                bin_hz(i as nat, bins as nat, s.nyquist),
                left,
                width,
                #[trigger] xs@[i],
            ),
{
    let mut xs: Vec<Bits> = Vec::new();
    let mut i: usize = 0;
    while i < bins
        invariant
            is_total(m),
            i <= bins,
            xs@.len() == i,
            forall|k: int|
                0 <= k < i ==> is_place(
                    m,
                    *s,
                    bin_hz(k as nat, bins as nat, s.nyquist),
                    left,
                    width,
                    #[trigger] xs@[k],
                ),
        decreases bins - i,
    {
        xs.push(place(m, s, hz_of(i, bins, s.nyquist), left, width));
        i = i + 1;
    }
    xs
}

// ---- The line ---------------------------------------------------------------

/// Does the scale reach down to that bin?
pub open spec fn is_shown(s: Scale, i: nat, bins: nat) -> bool {
    !less(bin_hz(i, bins, s.nyquist), s.low)
}

fn shows(s: &Scale, i: usize, bins: usize) -> (r: bool)
    ensures
        r == is_shown(*s, i as nat, bins as nat),
{
    !less_than(hz_of(i, bins, s.nyquist), s.low)
}

/// The point of bin `i`.
pub open spec fn corner(spec_db: Seq<Bits>, xs: Seq<Bits>, i: int, y: Bits, h: Bits) -> Point {
    Point { x: xs[i], y: level_height(spec_db[i], y, h) }
}

/// The corners of the line, over the first `n` bins. The bin at zero has none.
pub open spec fn corners(s: Scale, spec_db: Seq<Bits>, xs: Seq<Bits>, y: Bits, h: Bits, n: int) -> Seq<Point>
    decreases n,
{
    if n <= 1 {
        Seq::empty()
    } else {
        let before = corners(s, spec_db, xs, y, h, n - 1);
        if is_shown(s, (n - 1) as nat, spec_db.len()) {
            before.push(corner(spec_db, xs, n - 1, y, h))
        } else {
            before
        }
    }
}

fn corner_of(spec_db: &Vec<Bits>, xs: &Vec<Bits>, i: usize, y: Bits, h: Bits) -> (p: Point)
    requires
        i < spec_db@.len() == xs@.len(),
    ensures
        p == corner(spec_db@, xs@, i as int, y, h),
{
    Point { x: xs[i], y: db_to_y(spec_db[i], y, h) }
}

/// The corners of the line of a spectrum whose bins lie at `xs`.
pub fn trace(s: &Scale, spec_db: &Vec<Bits>, xs: &Vec<Bits>, y: Bits, h: Bits) -> (list: Vec<Point>)
    requires
        spec_db@.len() == xs@.len(),
    ensures
        list@ == corners(*s, spec_db@, xs@, y, h, spec_db@.len() as int),
{
    let bins: usize = spec_db.len();
    let mut list: Vec<Point> = Vec::new();
    let mut i: usize = 1;
    while i < bins
        invariant
            bins == spec_db@.len() == xs@.len(),
            1 <= i,
            i <= bins || i == 1,
            list@ == corners(*s, spec_db@, xs@, y, h, i as int),
        decreases bins - i,
    {
        if shows(s, i, bins) {
            list.push(corner_of(spec_db, xs, i, y, h));
        }
        i = i + 1;
    }
    list
}

// ---- The difference ---------------------------------------------------------

/// The area between two lines, from one bin to the next.
#[derive(Clone, Copy, PartialEq, Eq, Debug, Structural)]
pub struct Patch {
    /// Did processing add energy here?
    pub added: bool,
    /// The line before processing, at both bins.
    pub before_from: Point,
    pub before_to: Point,
    /// The line after it.
    pub after_from: Point,
    pub after_to: Point,
}

/// The area up to bin `i`.
pub open spec fn patch(before: Seq<Bits>, after: Seq<Bits>, xs: Seq<Bits>, i: int, y: Bits, h: Bits) -> Patch {
    Patch {
        added: adds_energy((before[i - 1], before[i]), (after[i - 1], after[i])),
        before_from: corner(before, xs, i - 1, y, h),
        before_to: corner(before, xs, i, y, h),
        after_from: corner(after, xs, i - 1, y, h),
        after_to: corner(after, xs, i, y, h),
    }
}

/// The areas between the lines, over the first `n` bins.
pub open spec fn patches(
    s: Scale,
    before: Seq<Bits>,
    after: Seq<Bits>,
    xs: Seq<Bits>,
    y: Bits,
    h: Bits,
    n: int,
) -> Seq<Patch>
    decreases n,
{
    if n <= 2 {
        Seq::empty()
    } else {
        let rest = patches(s, before, after, xs, y, h, n - 1);
        if is_shown(s, (n - 1) as nat, after.len()) {
            rest.push(patch(before, after, xs, n - 1, y, h))
        } else {
            rest
        }
    }
}

/// The areas between the spectra before and after processing.
pub fn difference(s: &Scale, before: &Vec<Bits>, after: &Vec<Bits>, xs: &Vec<Bits>, y: Bits, h: Bits) -> (list: Vec<
    Patch,
>)
    requires
        before@.len() == after@.len() == xs@.len(),
    ensures
        list@ == patches(*s, before@, after@, xs@, y, h, after@.len() as int),
{
    let bins: usize = after.len();
    let mut list: Vec<Patch> = Vec::new();
    let mut i: usize = 2;
    while i < bins
        invariant
            bins == before@.len() == after@.len() == xs@.len(),
            2 <= i,
            i <= bins || i == 2,
            list@ == patches(*s, before@, after@, xs@, y, h, i as int),
        decreases bins - i,
    {
        if shows(s, i, bins) {
            list.push(
                Patch {
                    added: energy_added((before[i - 1], before[i]), (after[i - 1], after[i])),
                    before_from: corner_of(before, xs, i - 1, y, h),
                    before_to: corner_of(before, xs, i, y, h),
                    after_from: corner_of(after, xs, i - 1, y, h),
                    after_to: corner_of(after, xs, i, y, h),
                },
            );
        }
        i = i + 1;
    }
    list
}

// ---- The grid ---------------------------------------------------------------

/// A frequency of the grid.
#[derive(Clone, Copy, PartialEq, Eq, Debug, Structural)]
pub struct Mark {
    pub hz: u32,
    /// Is the frequency written beside it?
    pub named: bool,
}

/// The frequencies of the grid: the faint ones, and then those with names.
pub open spec fn grid_mark(k: nat) -> Mark {
    if k == 0 {
        Mark { hz: 20, named: false }
    } else if k == 1 {
        Mark { hz: 30, named: false }
    } else if k == 2 {
        Mark { hz: 200, named: false }
    } else if k == 3 {
        Mark { hz: 300, named: false }
    } else if k == 4 {
        Mark { hz: 2000, named: false }
    } else if k == 5 {
        Mark { hz: 3000, named: false }
    } else if k == 6 {
        Mark { hz: 20000, named: false }
    } else if k == 7 {
        Mark { hz: 15000, named: false }
    } else if k == 8 {
        Mark { hz: 50, named: true }
    } else if k == 9 {
        Mark { hz: 100, named: true }
    } else if k == 10 {
        Mark { hz: 500, named: true }
    } else if k == 11 {
        Mark { hz: 1000, named: true }
    } else if k == 12 {
        Mark { hz: 5000, named: true }
    } else {
        Mark { hz: 10000, named: true }
    }
}

fn mark_of(k: usize) -> (r: Mark)
    requires
        k < GRID,
    ensures
        r == grid_mark(k as nat),
{
    let marks: [u32; 14] = [20, 30, 200, 300, 2000, 3000, 20000, 15000, 50, 100, 500, 1000, 5000, 10000];
    Mark { hz: marks[k], named: k >= 8 }
}

/// Where a mark lies in a plot, if the scale reaches to it.
pub open spec fn is_mark_place<M: Fn(Function, Bits) -> Bits>(
    m: &M,
    s: Scale,
    mark: Mark,
    left: Bits,
    width: Bits,
    x: Option<Bits>,
) -> bool {
    let hz = number(mark.hz as nat);
    if less(hz, s.low) || less(s.nyquist, hz) {
        x is None
    } else {
        x is Some && is_place(m, s, hz, left, width, x->0)
    }
}

/// The grid of frequencies, each with its place if the scale reaches to it.
pub fn grid<M: Fn(Function, Bits) -> Bits>(m: &M, s: &Scale, left: Bits, width: Bits) -> (list: Vec<
    (Mark, Option<Bits>),
>)
    requires
        is_total(m),
    ensures
        list@.len() == GRID,
        forall|k: int| 0 <= k < GRID ==> (#[trigger] list@[k]).0 == grid_mark(k as nat),
        forall|k: int|
            0 <= k < GRID ==> is_mark_place(m, *s, (#[trigger] list@[k]).0, left, width, list@[k].1),
{
    let mut list: Vec<(Mark, Option<Bits>)> = Vec::new();
    let mut k: usize = 0;
    while k < GRID
        invariant
            is_total(m),
            k <= GRID,
            list@.len() == k,
            forall|j: int| 0 <= j < k ==> (#[trigger] list@[j]).0 == grid_mark(j as nat),
            forall|j: int|
                0 <= j < k ==> is_mark_place(m, *s, (#[trigger] list@[j]).0, left, width, list@[j].1),
        decreases GRID - k,
    {
        let mark: Mark = mark_of(k);
        let hz: Bits = from_whole(mark.hz as u64);
        let x: Option<Bits> = if less_than(hz, s.low) || less_than(s.nyquist, hz) {
            None
        } else {
            Some(place(m, s, hz, left, width))
        };
        list.push((mark, x));
        k = k + 1;
    }
    list
}

} // verus!
