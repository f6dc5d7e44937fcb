//! Drawing the spectrogram: which slices and bins a pixel shows, and how equal
//! pixels of a column become one rectangle.

use vstd::prelude::*;
use crate::arith::{number, from_whole};
use crate::fft::{Spectrogram, FULL_CODE, lemma_codes, lemma_code_fits};
use crate::plan::{least, most, minus};
use crate::scalar::{fadd, fsub, fmul, fdiv, truncated, raised, fraction};
use crate::scalar::{add_to, subtract, multiply, divide_by, truncate, ceiling, fraction_of};
use crate::single::TWO;
use crate::single::{Bits, ONE, less, less_than, clamped, clamp};

verus! {

/// At most about so many slices are read for one pixel.
pub const MOST_READ: usize = 8;

// ---- Rows -------------------------------------------------------------------

/// The bins that one row of pixels shows.
#[derive(Clone, Copy, PartialEq, Eq, Debug, Structural)]
pub struct Row {
    pub bin_lo: usize,
    pub bin_hi: usize,
    /// How far the row's lower edge lies into its first bin.
    pub frac: Bits,
    /// The row shows less than two bins and blends neighbours.
    pub blend: bool,
}

/// Where a frequency lies among the bins.
pub open spec fn bin_at(hz: Bits, rate: u32, bins: nat) -> Bits {
    fmul(fdiv(hz, fdiv(number(rate as nat), TWO)), number(bins))
}

/// The bins of a row that shows the frequencies from `lo_hz` to `hi_hz`.
pub open spec fn row_of(lo_hz: Bits, hi_hz: Bits, rate: u32, bins: nat) -> Row {
    let at = bin_at(lo_hz, rate, bins);
    let lo = least(truncated(at), (bins - 1) as nat);
    let hi = least(most(raised(bin_at(hi_hz, rate, bins)), lo + 1), bins);
    Row {
        bin_lo: lo as usize,
        bin_hi: hi as usize,
        frac: fraction(at),
        blend: hi - lo <= 1,
    }
}

pub fn find_bin(hz: Bits, rate: u32, bins: usize) -> (r: Bits)
    ensures
        r == bin_at(hz, rate, bins as nat),
{
    multiply(divide_by(hz, divide_by(from_whole(rate as u64), TWO)), from_whole(bins as u64))
}

impl Row {
    pub open spec fn fits(self, bins: nat) -> bool {
        self.bin_lo < self.bin_hi <= bins
    }

    /// The bins of a row that shows the frequencies from `lo_hz` to `hi_hz`.
    pub fn new(lo_hz: Bits, hi_hz: Bits, rate: u32, bins: usize) -> (r: Row)
        requires
            bins > 0,
        ensures
            r == row_of(lo_hz, hi_hz, rate, bins as nat),
            r.fits(bins as nat),
    {
        let at: Bits = find_bin(lo_hz, rate, bins);
        let w: u64 = truncate(at);
        let lo: usize = if w < (bins - 1) as u64 {
            w as usize
        } else {
            bins - 1
        };
        let c: u64 = ceiling(find_bin(hi_hz, rate, bins));
        let hi: usize = if c <= lo as u64 {
            lo + 1
        } else if c < bins as u64 {
            c as usize
        } else {
            bins
        };
        Row { bin_lo: lo, bin_hi: hi, frac: fraction_of(at), blend: hi - lo <= 1 }
    }
}

/// The highest of the codes from `a` on up to `b`.
pub open spec fn top_code(s: Seq<u8>, a: int, b: int) -> u8
    decreases b - a,
{
    if b <= a {
        0
    } else {
        let rest = top_code(s, a, b - 1);
        if s[b - 1] > rest {
            s[b - 1]
        } else {
            rest
        }
    }
}

/// What a row shows of one slice.
pub open spec fn seen(slice: Seq<u8>, row: Row) -> Bits {
    if row.blend {
        let next = least(row.bin_lo as nat + 1, (slice.len() - 1) as nat);
        let a = number(slice[row.bin_lo as int] as nat);
        let b = number(slice[next as int] as nat);
        fadd(a, fmul(fsub(b, a), row.frac))
    } else {
        number(top_code(slice, row.bin_lo as int, row.bin_hi as int) as nat)
    }
}

/// What a row shows of one slice.
pub fn look(slice: &[u8], row: &Row) -> (r: Bits)
    requires
        row.fits(slice@.len()),
    ensures
        r == seen(slice@, *row),
{
    let n: usize = slice.len();
    if row.blend {
        let next: usize = if row.bin_lo + 1 < n {
            row.bin_lo + 1
        } else {
            n - 1
        };
        let a: Bits = from_whole(slice[row.bin_lo] as u64);
        let b: Bits = from_whole(slice[next] as u64);
        return add_to(a, multiply(subtract(b, a), row.frac));
    }
    let mut best: u8 = 0;
    let mut i: usize = row.bin_lo;
    while i < row.bin_hi
        invariant
            row.bin_lo <= i <= row.bin_hi <= slice@.len(),
            best == top_code(slice@, row.bin_lo as int, i as int),
        decreases row.bin_hi - i,
    {
        if slice[i] > best {
            best = slice[i];
        }
        i = i + 1;
    }
    from_whole(best as u64)
}

// ---- Columns ----------------------------------------------------------------

/// The slices that one column of pixels shows.
#[derive(Clone, Copy, PartialEq, Eq, Debug, Structural)]
pub struct Slices {
    pub first: usize,
    /// The slice to blend into.
    pub next: usize,
    /// The slice behind the last one read.
    pub end: usize,
    pub step: usize,
    /// How far the column lies into its first slice.
    pub frac: Bits,
    /// The column shows less than one slice and blends neighbours.
    pub blend: bool,
}

/// What is shown of a spectrogram: its width in pixels and its stretch of time.
#[derive(Clone, Copy, PartialEq, Eq, Debug, Structural)]
pub struct Shown {
    pub pixels: usize,
    pub scroll: Bits,
    pub visible: Bits,
}

/// How many slices one column of pixels shows.
pub open spec fn slices_per_pixel(sg: &Spectrogram, s: Shown) -> Bits {
    fdiv(
        fdiv(fmul(s.visible, number(sg.sample_rate as nat)), number(sg.hop as nat)),
        number(s.pixels as nat),
    )
}

/// Where a column lies among the slices.
pub open spec fn slice_at(sg: &Spectrogram, s: Shown, px: nat) -> Bits {
    let t = fadd(s.scroll, fmul(fdiv(number(px), number(s.pixels as nat)), s.visible));
    fdiv(
        fsub(fmul(t, number(sg.sample_rate as nat)), fdiv(number(sg.fft_size as nat), TWO)),
        number(sg.hop as nat),
    )
}

/// The slices of a column; none before the first and behind the last.
pub open spec fn slices_of(sg: &Spectrogram, s: Shown, px: nat) -> Option<Slices> {
    let at = slice_at(sg, s, px);
    let per = slices_per_pixel(sg, s);
    let n = sg.slices();
    let first = truncated(at);
    if less(at, 0) || first >= n {
        None
    } else {
        let end = least(first + most(raised(per), 1), n);
        Some(
            Slices {
                first: first as usize,
                next: least(first + 1, (n - 1) as nat) as usize,
                end: end as usize,
                step: most((end - first) as nat / MOST_READ as nat, 1) as usize,
                frac: fraction(at),
                blend: less(per, ONE),
            },
        )
    }
}

impl Slices {
    pub open spec fn fits(self, n: nat) -> bool {
        self.first < self.end <= n && self.next < n && self.step >= 1
    }

    /// The slices of a column.
    pub fn at(sg: &Spectrogram, s: &Shown, px: usize) -> (r: Option<Slices>)
        ensures
            r == slices_of(sg, *s, px as nat),
            r is Some ==> r->0.fits(sg.slices()),
    {
        let rate: Bits = from_whole(sg.sample_rate as u64);
        let hop: Bits = from_whole(sg.hop as u64);
        let width: Bits = from_whole(s.pixels as u64);
        let t: Bits = add_to(s.scroll, multiply(divide_by(from_whole(px as u64), width), s.visible));
        let half: Bits = divide_by(from_whole(sg.fft_size as u64), TWO);
        let at: Bits = divide_by(subtract(multiply(t, rate), half), hop);
        let per: Bits = divide_by(divide_by(multiply(s.visible, rate), hop), width);
        let n: usize = sg.time_bins();
        let w: u64 = truncate(at);
        if less_than(at, 0) || w >= n as u64 {
            return None;
        }
        let first: usize = w as usize;
        let c: u64 = ceiling(per);
        let room: u64 = (n - first) as u64;
        let count: usize = if c <= 1 {
            1
        } else if c < room {
            c as usize
        } else {
            n - first
        };
        let step: usize = if count / MOST_READ < 1 {
            1
        } else {
            count / MOST_READ
        };
        let next: usize = if first + 1 < n {
            first + 1
        } else {
            n - 1
        };
        Some(
            Slices {
                first,
                next,
                end: first + count,
                step,
                frac: fraction_of(at),
                blend: less_than(per, ONE),
            },
        )
    }
}

/// A level as a code.
pub open spec fn as_code(b: Bits) -> u8 {
    least(truncated(b), 255) as u8
}

/// The highest code that a row shows of the slices read from `si` on.
pub open spec fn loudest(sg: &Spectrogram, row: Row, si: nat, end: nat, step: nat) -> u8
    decreases minus(end, si),
{
    if si >= end || step == 0 {
        0
    } else {
        let rest = loudest(sg, row, si + step, end, step);
        let v = as_code(seen(sg.row_at(si as int), row));
        if v > rest {
            v
        } else {
            rest
        }
    }
}

/// The code of one pixel: a blend of two slices where a slice is wider than a
/// pixel, the highest of those read where it is not.
pub open spec fn pixel(sg: &Spectrogram, row: Row, s: Slices) -> u8 {
    if s.blend {
        let a = seen(sg.row_at(s.first as int), row);
        let b = seen(sg.row_at(s.next as int), row);
        truncated(clamped(fadd(a, fmul(fsub(b, a), s.frac)), 0, FULL_CODE)) as u8
    } else {
        loudest(sg, row, s.first as nat, s.end as nat, s.step as nat)
    }
}

/// The code of one pixel.
pub fn pixel_code(sg: &Spectrogram, row: &Row, s: &Slices) -> (r: u8)
    requires
        row.fits(sg.freq_bins as nat),
        s.fits(sg.slices()),
    ensures
        r == pixel(sg, *row, *s),
{
    if s.blend {
        let a: Bits = look(sg.row(s.first), row);
        let b: Bits = look(sg.row(s.next), row);
        let v: Bits = add_to(a, multiply(subtract(b, a), s.frac));
        proof {
            lemma_codes();
            lemma_code_fits(v);
        }
        return truncate(clamp(v, 0, FULL_CODE)) as u8;
    }
    let mut best: u8 = 0;
    let mut si: usize = s.first;
    while si < s.end
        invariant
            row.fits(sg.freq_bins as nat),
            s.fits(sg.slices()),
            s.first <= si <= s.end,
            ({
                let rest = loudest(sg, *row, si as nat, s.end as nat, s.step as nat);
                loudest(sg, *row, s.first as nat, s.end as nat, s.step as nat) == (if best > rest {
                    best
                } else {
                    rest
                })
            }),
        decreases s.end - si,
    {
        let w: u64 = truncate(look(sg.row(si), row));
        let v: u8 = if w < 255 {
            w as u8
        } else {
            255
        };
        if v > best {
            best = v;
        }
        if s.step >= s.end - si {
            proof {
                assert(loudest(sg, *row, (si + s.step) as nat, s.end as nat, s.step as nat) == 0);
                assert(loudest(sg, *row, s.end as nat, s.end as nat, s.step as nat) == 0);
            }
            si = s.end;
        } else {
            si = si + s.step;
        }
    }
    best
}

/// The codes of one column of pixels, from the top down.
pub open spec fn column_of(sg: &Spectrogram, rows: Seq<Row>, s: Slices) -> Seq<u8> {
    Seq::new(rows.len(), |py: int| pixel(sg, rows[py], s))
}

/// The codes of one column of pixels, from the top down.
pub fn column_codes(sg: &Spectrogram, rows: &Vec<Row>, s: &Slices) -> (codes: Vec<u8>)
    requires
        forall|py: int| 0 <= py < rows@.len() ==> (#[trigger] rows@[py]).fits(sg.freq_bins as nat),
        s.fits(sg.slices()),
    ensures
        codes@ == column_of(sg, rows@, *s),
{
    let mut codes: Vec<u8> = Vec::new();
    let mut py: usize = 0;
    while py < rows.len()
        invariant
            forall|q: int| 0 <= q < rows@.len() ==> (#[trigger] rows@[q]).fits(sg.freq_bins as nat),
            s.fits(sg.slices()),
            py <= rows@.len(),
            codes@ == column_of(sg, rows@, *s).take(py as int),
        decreases rows@.len() - py,
    {
        codes.push(pixel_code(sg, &rows[py], s));
        py = py + 1;
    }
    codes
}

// ---- Runs -------------------------------------------------------------------

/// Pixels of a column that share a code.
#[derive(Clone, Copy, PartialEq, Eq, Debug, Structural)]
pub struct Run {
    pub start: usize,
    pub end: usize,
    pub code: u8,
}

/// The runs lie one behind the other from the top on, none is empty, each holds
/// its code alone, and neighbours differ.
pub open spec fn are_runs(list: Seq<Run>, codes: Seq<u8>) -> bool {
    &&& forall|i: int| 0 <= i < list.len() ==> (#[trigger] list[i]).start < list[i].end
    &&& forall|i: int, p: int|
        0 <= i < list.len() && list[i].start <= p < list[i].end ==> #[trigger] codes[p] == (
        #[trigger] list[i]).code
    &&& forall|i: int, j: int|
        0 <= i && j == i + 1 && j < list.len() ==> (#[trigger] list[i]).end == (
        #[trigger] list[j]).start && list[i].code != list[j].code
    &&& list.len() == 0 ==> codes.len() == 0
    &&& list.len() > 0 ==> list[0].start == 0 && list.last().end == codes.len()
}

/// Gathers the pixels of a column into runs.
pub fn runs(codes: &Vec<u8>) -> (list: Vec<Run>)
    ensures
        are_runs(list@, codes@),
{
    let mut list: Vec<Run> = Vec::new();
    let mut py: usize = 0;
    while py < codes.len()
        invariant
            py <= codes@.len(),
            are_runs(list@, codes@.take(py as int)),
        decreases codes@.len() - py,
    {
        let ghost before = list@;
        let ghost sofar = codes@.take(py as int);
        let ghost longer = codes@.take(py + 1);
        let n: usize = list.len();
        let c: u8 = codes[py];
        if n > 0 && list[n - 1].code == c {
            let start: usize = list[n - 1].start;
            list.set(n - 1, Run { start, end: py + 1, code: c });
        } else {
            list.push(Run { start: py, end: py + 1, code: c });
        }
        proof {
            assert forall|i: int, p: int|
                0 <= i < list@.len() && list@[i].start <= p < list@[i].end implies #[trigger] longer[p]
                == (#[trigger] list@[i]).code by {
                if p == py {
                    if i < before.len() && i < before.len() - 1 {
                        lemma_ends_rise(before, sofar, i, before.len() - 1);
                    }
                } else {
                    if i < before.len() - 1 {
                        lemma_ends_rise(before, sofar, i, before.len() - 1);
                    }
                    assert(sofar[p] == longer[p]);
                    if i < before.len() {
                        assert(before[i].start <= p);
                        if i < before.len() - 1 {
                            assert(list@[i] == before[i]);
                        } else {
                            assert(p < before[i].end);
                        }
                    }
                }
            }
        }
        py = py + 1;
    }
    assert(codes@.take(codes@.len() as int) =~= codes@);
    list
}

/// Later runs end later.
proof fn lemma_ends_rise(list: Seq<Run>, codes: Seq<u8>, i: int, j: int)
    requires
        are_runs(list, codes),
        0 <= i < j < list.len(),
    ensures
        list[i].end <= list[j].start,
    decreases j - i,
{
    assert(list[i].end == list[i + 1].start);
    if i + 1 < j {
        lemma_ends_rise(list, codes, i + 1, j);
        assert(list[i + 1].start < list[i + 1].end);
    }
}

// ---- Laws -------------------------------------------------------------------

/// Every pixel of a column is drawn by some run, in its own code.
pub proof fn law_runs_cover(list: Seq<Run>, codes: Seq<u8>, p: int)
    requires
        are_runs(list, codes),
        0 <= p < codes.len(),
    ensures
        exists|i: int|
            0 <= i < list.len() && (#[trigger] list[i]).start <= p < list[i].end && list[i].code
                == codes[p],
{
    lemma_cover(list, codes, p, list.len() as int);
}

proof fn lemma_cover(list: Seq<Run>, codes: Seq<u8>, p: int, k: int)
    requires
        are_runs(list, codes),
        0 < k <= list.len(),
        0 <= p < list[k - 1].end,
        p < codes.len(),
    ensures
        exists|i: int|
            0 <= i < list.len() && (#[trigger] list[i]).start <= p < list[i].end && list[i].code
                == codes[p],
    decreases k,
{
    let i = k - 1;
    if list[i].start <= p {
        assert(codes[p] == list[i].code);
    } else {
        assert(i > 0);
        assert(list[i - 1].end == list[i].start);
        lemma_cover(list, codes, p, k - 1);
    }
}

/// No pixel of a column is drawn twice.
pub proof fn law_runs_apart(list: Seq<Run>, codes: Seq<u8>, i: int, j: int)
    requires
        are_runs(list, codes),
        0 <= i < j < list.len(),
    ensures
        list[i].end <= list[j].start,
{
    lemma_ends_rise(list, codes, i, j);
}

/// An event in a slice that is read shows in its pixel: no code read exceeds
/// the pixel's.
pub proof fn law_loudest_shows(sg: &Spectrogram, row: Row, si: nat, end: nat, step: nat, k: nat)
    requires
        step >= 1,
        si + k * step < end,
    ensures
        as_code(seen(sg.row_at((si + k * step) as int), row)) <= loudest(sg, row, si, end, step),
    decreases k,
{
    if k > 0 {
        assert(si + k * step == (si + step) + (k - 1) * step) by (nonlinear_arith)
            requires
                k > 0,
        ;
        assert((k - 1) * step >= 0) by (nonlinear_arith)
            requires
                k > 0,
                step >= 1,
        ;
        law_loudest_shows(sg, row, si + step, end, step, (k - 1) as nat);
    } else {
        assert(0 * step == 0) by (nonlinear_arith);
    }
}

} // verus!
