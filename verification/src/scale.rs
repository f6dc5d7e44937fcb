//! The logarithmic scale of frequencies that the plots over frequency share:
//! from the lowest frequency worth showing up to half the sample rate.

use vstd::prelude::*;
use crate::arith::{number, from_whole};
use crate::canvas::Band;
use crate::correlation::{curve_at, curve_point};
use crate::functions::{Function, is_total, gives, evaluate};
use crate::heatmap::{Row, row_of};
use crate::scalar::{fadd, fsub, fmul, fdiv, fmax, lemma_zero_one};
use crate::scalar::{add_to, subtract, multiply, divide_by, larger};
use crate::single::{Bits, ONE, TWO, MILLIONTH, at_most, is_at_most, clamped, clamp};
use crate::waveform::{Waveform, LOWEST_HZ};

verus! {

// ---- The scale --------------------------------------------------------------

/// A scale of frequencies, with the logarithms of its ends.
#[derive(Clone, Copy, PartialEq, Eq, Debug, Structural)]
pub struct Scale {
    pub low: Bits,
    pub nyquist: Bits,
    pub log_low: Bits,
    pub log_high: Bits,
}

pub open spec fn half_rate(rate: u32) -> Bits {
    fdiv(number(rate as nat), TWO)
}

/// The scale for a spectrum of so many bins.
pub open spec fn is_scale<M: Fn(Function, Bits) -> Bits>(m: &M, rate: u32, bins: nat, s: Scale) -> bool {
    &&& s.nyquist == half_rate(rate)
    &&& s.low == fmax(LOWEST_HZ, fdiv(half_rate(rate), number(bins)))
    &&& gives(m, Function::Log10, s.low, s.log_low)
    &&& gives(m, Function::Log10, s.nyquist, s.log_high)
}

impl Scale {
    /// The length of the scale, in decades.
    pub open spec fn span(self) -> Bits {
        fmax(fsub(self.log_high, self.log_low), MILLIONTH)
    }

    /// `hz` is the frequency that far along the scale.
    pub open spec fn is_hz<M: Fn(Function, Bits) -> Bits>(self, m: &M, part: Bits, hz: Bits) -> bool {
        gives(m, Function::TenTo, fadd(self.log_low, fmul(part, self.span())), hz)
    }

    /// The frequency lies that far along the scale.
    pub open spec fn is_part<M: Fn(Function, Bits) -> Bits>(self, m: &M, hz: Bits, part: Bits) -> bool {
        exists|log: Bits| #[trigger]
            gives(m, Function::Log10, hz, log) && part == fdiv(fsub(log, self.log_low), self.span())
    }

    /// The scale for a spectrum of so many bins.
    pub fn new<M: Fn(Function, Bits) -> Bits>(m: &M, rate: u32, bins: usize) -> (s: Scale)
        requires
            is_total(m),
        ensures
            is_scale(m, rate, bins as nat, s),
    {
        let nyquist: Bits = divide_by(from_whole(rate as u64), TWO);
        let low: Bits = larger(LOWEST_HZ, divide_by(nyquist, from_whole(bins as u64)));
        let log_low: Bits = evaluate(m, Function::Log10, low);
        let log_high: Bits = evaluate(m, Function::Log10, nyquist);
        Scale { low, nyquist, log_low, log_high }
    }

    fn length(&self) -> (r: Bits)
        ensures
            r == self.span(),
    {
        larger(subtract(self.log_high, self.log_low), MILLIONTH)
    }

    /// The frequency that far along the scale.
    pub fn hz<M: Fn(Function, Bits) -> Bits>(&self, m: &M, part: Bits) -> (hz: Bits)
        requires
            is_total(m),
        ensures
            self.is_hz(m, part, hz),
    {
        evaluate(m, Function::TenTo, add_to(self.log_low, multiply(part, self.length())))
    }

    /// How far along the scale a frequency lies.
    pub fn part<M: Fn(Function, Bits) -> Bits>(&self, m: &M, hz: Bits) -> (part: Bits)
        requires
            is_total(m),
        ensures
            self.is_part(m, hz, part),
    {
        let log: Bits = evaluate(m, Function::Log10, hz);
        divide_by(subtract(log, self.log_low), self.length())
    }
}

// ---- Picking a band ---------------------------------------------------------

impl Waveform {
    /// `hz` is the frequency that far along the correlation curve, if there is
    /// a curve.
    pub open spec fn is_frequency_at<M: Fn(Function, Bits) -> Bits>(
        self,
        m: &M,
        x_frac: Bits,
        hz: Option<Bits>,
    ) -> bool {
        if self.frequencies() is None {
            hz is None
        } else {
            hz is Some && exists|s: Scale| #[trigger]
                is_scale(m, self.sample_rate, self.band_bins as nat, s) && s.is_hz(
                    m,
                    clamped(x_frac, 0, ONE),
                    hz->0,
                )
        }
    }

    /// The frequency that far along the correlation curve.
    pub fn corr_x_to_hz<M: Fn(Function, Bits) -> Bits>(&self, m: &M, x_frac: Bits) -> (hz: Option<Bits>)
        requires
            is_total(m),
        ensures
            self.is_frequency_at(m, x_frac, hz),
    {
        if self.sample_rate == 0 || self.band_bins == 0 {
            return None;
        }
        let s: Scale = Scale::new(m, self.sample_rate, self.band_bins);
        proof {
            lemma_zero_one();
        }
        Some(s.hz(m, clamp(x_frac, 0, ONE)))
    }

    /// The frequencies of a band of the correlation curve.
    pub fn band_frequencies<M: Fn(Function, Bits) -> Bits>(&self, m: &M, band: Band) -> (r: Option<
        (Bits, Bits),
    >)
        requires
            is_total(m),
        ensures
            r is None <==> self.frequencies() is None,
            r is Some ==> self.is_frequency_at(m, band.lo, Some((r->0).0)),
            r is Some ==> self.is_frequency_at(m, band.hi, Some((r->0).1)),
    {
        match self.corr_x_to_hz(m, band.lo) {
            None => None,
            Some(lo) => match self.corr_x_to_hz(m, band.hi) {
                None => None,
                Some(hi) => Some((lo, hi)),
            },
        }
    }
}

// ---- The correlation curve --------------------------------------------------

/// `p` is what pixel `i` of `count` shows of the bands.
pub open spec fn is_pixel<M: Fn(Function, Bits) -> Bits>(
    m: &M,
    s: Scale,
    bands: Seq<(Bits, Bits)>,
    rate: u32,
    i: nat,
    count: nat,
    p: Option<(Bits, Bits)>,
) -> bool {
    exists|lo: Bits, hi: Bits|
        #![trigger curve_point(bands, lo, hi, rate)]
        s.is_hz(m, fdiv(number(i), number(count)), lo) && s.is_hz(
            m,
            fdiv(number(i + 1), number(count)),
            hi,
        ) && p == curve_point(bands, lo, hi, rate)
}

/// `list` is the curve of the bands, one entry for every pixel. Without bands
/// it shows nothing.
pub open spec fn is_curve<M: Fn(Function, Bits) -> Bits>(
    m: &M,
    bands: Seq<(Bits, Bits)>,
    rate: u32,
    list: Seq<Option<(Bits, Bits)>>,
) -> bool {
    if rate == 0 || bands.len() == 0 {
        forall|i: int| 0 <= i < list.len() ==> (#[trigger] list[i]) is None
    } else {
        exists|s: Scale| #[trigger]
            is_scale(m, rate, bands.len(), s) && forall|i: int|
                0 <= i < list.len() ==> is_pixel(
                    m,
                    s,
                    bands,
                    rate,
                    i as nat,
                    list.len(),
                    #[trigger] list[i],
                )
    }
}

/// The correlation of the bands as a curve over frequency, resolved for every
/// pixel.
pub fn curve<M: Fn(Function, Bits) -> Bits>(m: &M, bands: &Vec<(Bits, Bits)>, rate: u32, count: usize) -> (list:
    Vec<Option<(Bits, Bits)>>)
    requires
        is_total(m),
    ensures
        list@.len() == count,
        is_curve(m, bands@, rate, list@),
{
    let mut list: Vec<Option<(Bits, Bits)>> = Vec::new();
    let mut i: usize = 0;
    if rate == 0 || bands.len() == 0 {
        while i < count
            invariant
                i <= count,
                list@.len() == i,
                forall|k: int| 0 <= k < list@.len() ==> (#[trigger] list@[k]) is None,
            decreases count - i,
        {
            list.push(None);
            i = i + 1;
        }
        return list;
    }
    let s: Scale = Scale::new(m, rate, bands.len());
    while i < count
        invariant
            is_total(m),
            i <= count,
            list@.len() == i,
            forall|k: int|
                0 <= k < i ==> is_pixel(m, s, bands@, rate, k as nat, count as nat, #[trigger] list@[k]),
        decreases count - i,
    {
        let all: Bits = from_whole(count as u64);
        let lo: Bits = s.hz(m, divide_by(from_whole(i as u64), all));
        let hi: Bits = s.hz(m, divide_by(from_whole((i + 1) as u64), all));
        let p: Option<(Bits, Bits)> = curve_at(bands, lo, hi, rate);
        proof {
            assert(p == curve_point(bands@, lo, hi, rate));
        }
        list.push(p);
        i = i + 1;
    }
    list
}

/// Where a mark of the grid lies in a plot, if it lies in it.
pub open spec fn is_mark<M: Fn(Function, Bits) -> Bits>(
    m: &M,
    s: Scale,
    hz: Bits,
    left: Bits,
    width: Bits,
    x: Option<Bits>,
) -> bool {
    exists|part: Bits| #[trigger]
        s.is_part(m, hz, part) && x == (if at_most(0, part) && at_most(part, ONE) {
            Some(fadd(left, fmul(part, width)))
        } else {
            None
        })
}

/// Where an edge of the selected band lies.
pub open spec fn is_edge<M: Fn(Function, Bits) -> Bits>(
    m: &M,
    s: Scale,
    hz: Bits,
    left: Bits,
    width: Bits,
    x: Bits,
) -> bool {
    exists|part: Bits| #[trigger]
        s.is_part(m, hz, part) && x == fadd(left, fmul(clamped(part, 0, ONE), width))
}

impl Scale {
    /// Where a mark of the grid lies in a plot, if it lies in it.
    pub fn mark<M: Fn(Function, Bits) -> Bits>(&self, m: &M, hz: Bits, left: Bits, width: Bits) -> (x: Option<
        Bits,
    >)
        requires
            is_total(m),
        ensures
            is_mark(m, *self, hz, left, width, x),
    {
        let part: Bits = self.part(m, hz);
        if is_at_most(0, part) && is_at_most(part, ONE) {
            Some(add_to(left, multiply(part, width)))
        } else {
            None
        }
    }

    fn edge<M: Fn(Function, Bits) -> Bits>(&self, m: &M, hz: Bits, left: Bits, width: Bits) -> (x: Bits)
        requires
            is_total(m),
        ensures
            is_edge(m, *self, hz, left, width, x),
    {
        let part: Bits = self.part(m, hz);
        proof {
            lemma_zero_one();
        }
        add_to(left, multiply(clamp(part, 0, ONE), width))
    }

    /// The edges of the selected band in a plot, at least a pixel apart.
    pub fn edges<M: Fn(Function, Bits) -> Bits>(&self, m: &M, band: (Bits, Bits), left: Bits, width: Bits) -> (r: (
        Bits,
        Bits,
    ))
        requires
            is_total(m),
        ensures
            is_edge(m, *self, band.0, left, width, r.0),
            exists|x: Bits| #[trigger]
                is_edge(m, *self, band.1, left, width, x) && r.1 == fmax(x, fadd(r.0, ONE)),
    {
        let x0: Bits = self.edge(m, band.0, left, width);
        let x1: Bits = self.edge(m, band.1, left, width);
        (x0, larger(x1, add_to(x0, ONE)))
    }
}

// ---- The rows of the spectrogram --------------------------------------------

/// The bins of row `py` of `tall`, counted from the top.
pub open spec fn is_row<M: Fn(Function, Bits) -> Bits>(
    m: &M,
    s: Scale,
    rate: u32,
    bins: nat,
    py: nat,
    tall: nat,
    row: Row,
) -> bool {
    exists|lo: Bits, hi: Bits|
        #![trigger row_of(lo, hi, rate, bins)]
        s.is_hz(m, fsub(ONE, fdiv(number(py + 1), number(tall))), lo) && s.is_hz(
            m,
            fsub(ONE, fdiv(number(py), number(tall))),
            hi,
        ) && row == row_of(lo, hi, rate, bins)
}

/// The bins of every row of a spectrogram that is `tall` pixels high.
pub fn rows<M: Fn(Function, Bits) -> Bits>(m: &M, rate: u32, bins: usize, tall: usize) -> (list: Vec<Row>)
    requires
        is_total(m),
        bins > 0,
    ensures
        list@.len() == tall,
        forall|py: int| 0 <= py < tall ==> (#[trigger] list@[py]).fits(bins as nat),
        exists|s: Scale| #[trigger]
            is_scale(m, rate, bins as nat, s) && forall|py: int|
                0 <= py < tall ==> is_row(
                    m,
                    s,
                    rate,
                    bins as nat,
                    py as nat,
                    tall as nat,
                    #[trigger] list@[py],
                ),
{
    let s: Scale = Scale::new(m, rate, bins);
    let mut list: Vec<Row> = Vec::new();
    let mut py: usize = 0;
    while py < tall
        invariant
            is_total(m),
            bins > 0,
            py <= tall,
            list@.len() == py,
            forall|k: int| 0 <= k < py ==> (#[trigger] list@[k]).fits(bins as nat),
            forall|k: int|
                0 <= k < py ==> is_row(
                    m,
                    s,
                    rate,
                    bins as nat,
                    k as nat,
                    tall as nat,
                    #[trigger] list@[k],
                ),
        decreases tall - py,
    {
        let all: Bits = from_whole(tall as u64);
        let hi: Bits = s.hz(m, subtract(ONE, divide_by(from_whole(py as u64), all)));
        let lo: Bits = s.hz(m, subtract(ONE, divide_by(from_whole((py + 1) as u64), all)));
        let row: Row = Row::new(lo, hi, rate, bins);
        proof {
            assert(row == row_of(lo, hi, rate, bins as nat));
        }
        list.push(row);
        py = py + 1;
    }
    list
}

} // verus!
