//! Stereo correlation: over frequency at a probe, and over the time of a file.
//!
//! Here stand the sums over the spectra, which bins and windows a value
//! gathers, how quiet bands fade out, and what the two displays show. The
//! transform and the functions of the mathematical library are supplied by the
//! caller.

use vstd::prelude::*;
use crate::arith::{number, from_whole};
use crate::envelope::{channel_sum, sum_frame};
use crate::fft::{CORR_AVG_FRAMES, CORR_FFT_SIZE, Shade, Stop, TENTH, between, mix, probe_start, probe_window};
use crate::functions::{Function, is_total, gives, evaluate};
use crate::heatmap::{bin_at, find_bin};
use crate::plan::{least, most};
use crate::spectra::{Bin, cross, is_hann, is_spectrum, is_transform, windowed, hann_n, transform_block};
use crate::scalar::{fadd, fsub, fmul, fdiv, fmax, truncated, raised, lemma_zero_one};
use crate::scalar::{add_to, subtract, multiply, divide_by, larger, truncate, ceiling};
use crate::columns::lemma_full_scale;
use crate::single::{Bits, ONE, TWO, HALF, MILLIONTH, MINUS_ONE, less, less_than, at_most, is_at_most, clamped, clamp};

verus! {

/// Below this energy a band counts as silent.
pub const NO_ENERGY: Bits = 0x1e3c_e508;
/// The level from which on a band fades in, and the levels that this takes.
pub const BAND_FLOOR: Bits = 0xc28c_0000;
pub const BAND_FADE: Bits = 0x41a0_0000;
/// The same of a window of the timeline.
pub const WINDOW_FLOOR: Bits = 0xc270_0000;
pub const WINDOW_FADE: Bits = 0x4170_0000;
/// A window of the timeline holds at least so many frames.
pub const SHORTEST_WINDOW: usize = 256;
/// From here on the lowest correlation is not worth a word.
pub const FINE_FROM: Bits = 0x3f59_999a;
/// Below this the lowest correlation is weak.
pub const NARROW_FROM: Bits = 0x3ecc_cccd;
/// The curve is drawn where the weight exceeds this.
pub const DRAWN_FROM: Bits = 0x3e19_999a;
/// The area is drawn where the weight exceeds this.
pub const FILLED_FROM: Bits = 0x3c23_d70a;
/// A window of the timeline counts where its weight exceeds this.
pub const COUNTED_FROM: Bits = 0x3d4c_cccd;
pub const GREATEST: Bits = 0x7f7f_ffff;
pub const ONE_AND_HALF: Bits = 0x3fc0_0000;
/// Share of the strip below, and above, a correlation of one half.
pub const LOWER_SHARE: Bits = 0x3ecc_cccd;
pub const UPPER_SHARE: Bits = 0x3f19_999a;
pub const ALPHA_IN_PHASE: Bits = 0x3e85_1eb8;
pub const ALPHA_OUT_OF_PHASE: Bits = 0x3ed7_0a3d;
pub const ALPHA_LEAST: Bits = 0x3e99_999a;
pub const ALPHA_SPAN: Bits = 0x3ee6_6666;

// ---- Spectra ----------------------------------------------------------------

/// The power of the channels and their cross power, bin by bin.
pub struct CrossSpectra {
    pub left: Vec<Bits>,
    pub right: Vec<Bits>,
    pub both: Vec<Bits>,
}

pub open spec fn added(sums: Seq<Bits>, a: Seq<Bin>, b: Seq<Bin>) -> Seq<Bits> {
    Seq::new(sums.len(), |i: int| fadd(sums[i], cross(a[i], b[i])))
}

fn add_power(sums: &mut Vec<Bits>, a: &Vec<Bin>, b: &Vec<Bin>)
    requires
        a@.len() >= old(sums)@.len(),
        b@.len() >= old(sums)@.len(),
    ensures
        final(sums)@ == added(old(sums)@, a@, b@),
{
    let ghost before = sums@;
    let n: usize = sums.len();
    let mut i: usize = 0;
    while i < n
        invariant
            i <= n == sums@.len() == before.len(),
            a@.len() >= n,
            b@.len() >= n,
            sums@.take(i as int) =~= added(before, a@, b@).take(i as int),
            sums@.skip(i as int) =~= before.skip(i as int),
        decreases n - i,
    {
        let p: Bits = add_to(multiply(a[i].re, b[i].re), multiply(a[i].im, b[i].im));
        assert(sums@[i as int] == sums@.skip(i as int)[0] == before[i as int]);
        let s: Bits = add_to(sums[i], p);
        let ghost mid = sums@;
        sums.set(i, s);
        proof {
            assert(sums@.take(i + 1) =~= mid.take(i as int).push(s));
            assert(added(before, a@, b@).take(i + 1) =~= added(before, a@, b@).take(i as int).push(s));
            assert(sums@.skip(i + 1) =~= mid.skip(i as int).skip(1));
            assert(before.skip(i + 1) =~= before.skip(i as int).skip(1));
        }
        i = i + 1;
    }
    assert(sums@ =~= sums@.take(n as int));
    assert(added(before, a@, b@) =~= added(before, a@, b@).take(n as int));
}

impl CrossSpectra {
    pub open spec fn wf(&self) -> bool {
        self.left@.len() == self.right@.len() == self.both@.len()
    }

    /// Sums without a window.
    pub fn new(bins: usize) -> (s: CrossSpectra)
        ensures
            s.wf(),
            s.left@ == Seq::new(bins as nat, |i: int| 0u32),
            s.right@ == Seq::new(bins as nat, |i: int| 0u32),
            s.both@ == Seq::new(bins as nat, |i: int| 0u32),
    {
        CrossSpectra { left: silence(bins), right: silence(bins), both: silence(bins) }
    }

    /// Adds the transforms of one window of the two channels.
    pub fn accumulate(&mut self, l: &Vec<Bin>, r: &Vec<Bin>)
        requires
            old(self).wf(),
            l@.len() >= old(self).left@.len(),
            r@.len() >= old(self).left@.len(),
        ensures
            final(self).wf(),
            final(self).left@ == added(old(self).left@, l@, l@),
            final(self).right@ == added(old(self).right@, r@, r@),
            final(self).both@ == added(old(self).both@, l@, r@),
    {
        add_power(&mut self.left, l, l);
        add_power(&mut self.right, r, r);
        add_power(&mut self.both, l, r);
    }
}

fn silence(n: usize) -> (v: Vec<Bits>)
    ensures
        v@ == Seq::new(n as nat, |i: int| 0u32),
{
    let mut v: Vec<Bits> = Vec::new();
    while v.len() < n
        invariant
            v@.len() <= n,
            v@ =~= Seq::new(v@.len(), |i: int| 0u32),
        decreases n - v@.len(),
    {
        v.push(0);
    }
    v
}

/// The bins whose sums bin `i` shows. `lo` and `hi` are the edges of the
/// smoothing as factors of the frequency.
pub open spec fn smoothing(i: nat, lo: Bits, hi: Bits, bins: nat) -> (nat, nat) {
    let a = most(truncated(fmul(number(i), lo)), 1);
    let b = least(raised(fmul(number(i), hi)) + 1, bins);
    if b > a {
        (a, b)
    } else {
        (i, least(i + 1, bins))
    }
}

/// The bins whose sums bin `i` shows.
pub fn smoothing_span(i: usize, lo: Bits, hi: Bits, bins: usize) -> (r: (usize, usize))
    requires
        1 <= i < bins,
    ensures
        (r.0 as nat, r.1 as nat) == smoothing(i as nat, lo, hi, bins as nat),
        1 <= r.0 < r.1 <= bins,
{
    let n: Bits = from_whole(i as u64);
    let t: u64 = truncate(multiply(n, lo));
    let a: u64 = if t < 1 {
        1
    } else {
        t
    };
    let c: u64 = ceiling(multiply(n, hi));
    let b: u64 = if c >= bins as u64 {
        bins as u64
    } else {
        c + 1
    };
    if b > a {
        (a as usize, b as usize)
    } else {
        (i, i + 1)
    }
}

/// The smoothed sums of a bin: the cross power, and the product of the powers,
/// whose root it is measured by.
pub open spec fn smoothed(s: &CrossSpectra, i: nat, lo: Bits, hi: Bits) -> (Bits, Bits) {
    let (a, b) = smoothing(i, lo, hi, s.left@.len());
    let n = b - a;
    (
        channel_sum(s.both@, a as int, n),
        fmul(channel_sum(s.left@, a as int, n), channel_sum(s.right@, a as int, n)),
    )
}

/// The smoothed sums of a bin.
pub fn smooth_bin(s: &CrossSpectra, i: usize, lo: Bits, hi: Bits) -> (r: (Bits, Bits))
    requires
        s.wf(),
        1 <= i < s.left@.len(),
    ensures
        r == smoothed(s, i as nat, lo, hi),
{
    let (a, b): (usize, usize) = smoothing_span(i, lo, hi, s.left.len());
    (
        sum_frame(&s.both, a, b - a),
        multiply(sum_frame(&s.left, a, b - a), sum_frame(&s.right, a, b - a)),
    )
}

/// The correlation from the cross power and the root of the powers' product.
pub open spec fn correlation_of(both: Bits, root: Bits) -> Bits {
    if less(NO_ENERGY, root) {
        clamped(fdiv(both, root), MINUS_ONE, ONE)
    } else {
        0
    }
}

/// The correlation from the cross power and the root of the powers' product.
pub fn correlate(both: Bits, root: Bits) -> (r: Bits)
    ensures
        r == correlation_of(both, root),
{
    if less_than(NO_ENERGY, root) {
        proof {
            lemma_full_scale();
        }
        clamp(divide_by(both, root), MINUS_ONE, ONE)
    } else {
        0
    }
}

/// How much of the way a level has faded in.
pub open spec fn faded(db: Bits, floor: Bits, fade: Bits) -> Bits {
    clamped(fdiv(fsub(db, floor), fade), 0, ONE)
}

/// How much of the way a level has faded in: the weight of a band, with
/// `BAND_FLOOR` and `BAND_FADE`, or of a window of the timeline.
pub fn fade_weight(db: Bits, floor: Bits, fade: Bits) -> (r: Bits)
    ensures
        r == faded(db, floor, fade),
{
    proof {
        lemma_zero_one();
    }
    clamp(divide_by(subtract(db, floor), fade), 0, ONE)
}

/// The greatest of the first `n` energies, at least `NO_ENERGY`.
pub open spec fn peak_energy(e: Seq<Bits>, n: int) -> Bits
    decreases n,
{
    if n <= 0 {
        0
    } else {
        fmax(peak_energy(e, n - 1), e[n - 1])
    }
}

/// An energy as a share of the greatest, for the logarithm.
pub open spec fn relative(e: Seq<Bits>, i: int) -> Bits {
    fmax(fdiv(e[i], fmax(peak_energy(e, e.len() as int), NO_ENERGY)), NO_ENERGY)
}

/// The energies as shares of the greatest.
pub fn relative_energies(e: &Vec<Bits>) -> (out: Vec<Bits>)
    ensures
        out@ == Seq::new(e@.len(), |i: int| relative(e@, i)),
{
    let mut peak: Bits = 0;
    let mut i: usize = 0;
    while i < e.len()
        invariant
            i <= e@.len(),
            peak == peak_energy(e@, i as int),
        decreases e@.len() - i,
    {
        peak = larger(peak, e[i]);
        i = i + 1;
    }
    let top: Bits = larger(peak, NO_ENERGY);
    let mut out: Vec<Bits> = Vec::new();
    let mut k: usize = 0;
    while k < e.len()
        invariant
            k <= e@.len(),
            top == fmax(peak_energy(e@, e@.len() as int), NO_ENERGY),
            out@ =~= Seq::new(e@.len(), |j: int| relative(e@, j)).take(k as int),
        decreases e@.len() - k,
    {
        out.push(larger(divide_by(e[k], top), NO_ENERGY));
        k = k + 1;
    }
    out
}

// ---- Correlation at a probe -------------------------------------------------

/// The edges of the smoothing: half of a sixth of an octave down and up.
pub const SMOOTH_DOWN: Bits = 0xbdaa_aaab;
pub const SMOOTH_UP: Bits = 0x3daa_aaab;
pub const TEN: Bits = 0x4120_0000;

/// The cross powers of the first `k` pairs of spectra, added up in order.
pub open spec fn summed(a: Seq<Vec<Bin>>, b: Seq<Vec<Bin>>, bins: nat, k: int) -> Seq<Bits>
    decreases k,
{
    if k <= 0 {
        Seq::new(bins, |i: int| 0u32)
    } else {
        added(summed(a, b, bins, k - 1), a[k - 1]@, b[k - 1]@)
    }
}

/// The first frame of block `k` around a probe.
pub open spec fn block_start(center: nat, k: int, frames: nat) -> nat {
    probe_start(
        center as int,
        k,
        CORR_AVG_FRAMES as int,
        CORR_FFT_SIZE as int / 2,
        CORR_FFT_SIZE as int,
        frames as int,
    ) as nat
}

/// `z` are the spectra of one channel in the first `n` blocks around a probe.
pub open spec fn are_spectra<T: Fn(Vec<Bits>) -> Vec<Bin>>(
    t: &T,
    samples: Seq<Bits>,
    ch: nat,
    channel: nat,
    center: nat,
    window: Seq<Bits>,
    n: nat,
    z: Seq<Vec<Bin>>,
) -> bool {
    &&& z.len() == n
    &&& forall|k: int|
        0 <= k < n ==> is_spectrum(
            t,
            windowed(samples, block_start(center, k, samples.len() / ch), ch, channel, window),
            (#[trigger] z[k])@,
        )
}

/// `s` are the powers of the first two channels around a probe.
pub open spec fn is_cross<T: Fn(Vec<Bits>) -> Vec<Bin>>(
    t: &T,
    samples: Seq<Bits>,
    ch: nat,
    center: nat,
    window: Seq<Bits>,
    s: &CrossSpectra,
) -> bool {
    let bins = window.len() / 2;
    let n = CORR_AVG_FRAMES as nat;
    exists|l: Seq<Vec<Bin>>, r: Seq<Vec<Bin>>|
        #![trigger are_spectra(t, samples, ch, 0, center, window, n, l), are_spectra(t, samples, ch, 1, center, window, n, r)]
        {
            &&& are_spectra(t, samples, ch, 0, center, window, n, l)
            &&& are_spectra(t, samples, ch, 1, center, window, n, r)
            &&& s.left@ == summed(l, l, bins, n as int)
            &&& s.right@ == summed(r, r, bins, n as int)
            &&& s.both@ == summed(l, r, bins, n as int)
        }
}

fn cross_spectra<T: Fn(Vec<Bits>) -> Vec<Bin>>(
    t: &T,
    samples: &Vec<Bits>,
    channels: usize,
    center_frame: usize,
    window: &Vec<Bits>,
) -> (s: CrossSpectra)
    requires
        is_transform(t),
        channels >= 2,
        window@.len() == CORR_FFT_SIZE,
        CORR_FFT_SIZE <= samples@.len() / (channels as nat),
    ensures
        s.wf(),
        s.left@.len() == CORR_FFT_SIZE / 2,
        is_cross(t, samples@, channels as nat, center_frame as nat, window@, &s),
{
    let frames: usize = samples.len() / channels;
    let mut s: CrossSpectra = CrossSpectra::new(CORR_FFT_SIZE / 2);
    let ghost mut l: Seq<Vec<Bin>> = Seq::empty();
    let ghost mut r: Seq<Vec<Bin>> = Seq::empty();
    let ghost bins = window@.len() / 2;
    let mut k: usize = 0;
    proof {
        assert(s.left@ =~= summed(l, l, bins, 0));
        assert(s.right@ =~= summed(r, r, bins, 0));
        assert(s.both@ =~= summed(l, r, bins, 0));
    }
    while k < CORR_AVG_FRAMES
        invariant
            is_transform(t),
            channels >= 2,
            window@.len() == CORR_FFT_SIZE,
            frames == samples@.len() / (channels as nat),
            CORR_FFT_SIZE <= frames,
            bins == CORR_FFT_SIZE / 2,
            k <= CORR_AVG_FRAMES,
            s.wf(),
            s.left@.len() == bins,
            are_spectra(t, samples@, channels as nat, 0, center_frame as nat, window@, k as nat, l),
            are_spectra(t, samples@, channels as nat, 1, center_frame as nat, window@, k as nat, r),
            s.left@ == summed(l, l, bins, k as int),
            s.right@ == summed(r, r, bins, k as int),
            s.both@ == summed(l, r, bins, k as int),
        decreases CORR_AVG_FRAMES - k,
    {
        let start: usize = probe_window(
            center_frame,
            k,
            CORR_AVG_FRAMES,
            CORR_FFT_SIZE / 2,
            CORR_FFT_SIZE,
            frames,
        );
        proof {
            lemma_block_inside(start as int, channels as int, samples@.len() as int);
        }
        let zl: Vec<Bin> = transform_block(t, samples, start, channels, 0, window);
        let zr: Vec<Bin> = transform_block(t, samples, start, channels, 1, window);
        s.accumulate(&zl, &zr);
        proof {
            let (a, b) = (l, r);
            l = l.push(zl);
            r = r.push(zr);
            assert(l.take(k as int) =~= a);
            assert(r.take(k as int) =~= b);
            lemma_summed_prefix(a, a, l, l, bins, k as int);
            lemma_summed_prefix(b, b, r, r, bins, k as int);
            lemma_summed_prefix(a, b, l, r, bins, k as int);
            assert forall|j: int| 0 <= j < k + 1 implies is_spectrum(
                t,
                windowed(
                    samples@,
                    block_start(center_frame as nat, j, frames as nat),
                    channels as nat,
                    0,
                    window@,
                ),
                (#[trigger] l[j])@,
            ) by {
                if j < k {
                    assert(l[j] == a[j]);
                }
            }
            assert forall|j: int| 0 <= j < k + 1 implies is_spectrum(
                t,
                windowed(
                    samples@,
                    block_start(center_frame as nat, j, frames as nat),
                    channels as nat,
                    1,
                    window@,
                ),
                (#[trigger] r[j])@,
            ) by {
                if j < k {
                    assert(r[j] == b[j]);
                }
            }
        }
        k = k + 1;
    }
    s
}

proof fn lemma_block_inside(start: int, ch: int, len: int)
    requires
        ch >= 2,
        0 <= start,
        start + CORR_FFT_SIZE <= len / ch,
    ensures
        (start + CORR_FFT_SIZE) * ch <= len,
{
    vstd::arithmetic::div_mod::lemma_fundamental_div_mod(len, ch);
    vstd::arithmetic::div_mod::lemma_mod_bound(len, ch);
    assert((start + CORR_FFT_SIZE) * ch <= ch * (len / ch)) by (nonlinear_arith)
        requires
            start + CORR_FFT_SIZE <= len / ch,
            ch >= 2,
    ;
}

proof fn lemma_summed_prefix(
    a: Seq<Vec<Bin>>,
    b: Seq<Vec<Bin>>,
    c: Seq<Vec<Bin>>,
    d: Seq<Vec<Bin>>,
    bins: nat,
    k: int,
)
    requires
        0 <= k <= a.len(),
        k <= b.len(),
        a.len() <= c.len(),
        b.len() <= d.len(),
        c.take(a.len() as int) == a,
        d.take(b.len() as int) == b,
    ensures
        summed(a, b, bins, k) == summed(c, d, bins, k),
    decreases k,
{
    if k > 0 {
        lemma_summed_prefix(a, b, c, d, bins, k - 1);
        assert(a[k - 1] == c.take(a.len() as int)[k - 1]);
        assert(b[k - 1] == d.take(b.len() as int)[k - 1]);
    }
}

/// `e` are the energies of the bins; the first bin counts for nothing.
pub open spec fn are_energies<M: Fn(Function, Bits) -> Bits>(
    m: &M,
    s: &CrossSpectra,
    lo: Bits,
    hi: Bits,
    e: Seq<Bits>,
) -> bool {
    &&& e.len() == s.left@.len()
    &&& e.len() > 0 ==> e[0] == 0
    &&& forall|i: int|
        1 <= i < e.len() ==> gives(
            m,
            Function::SquareRoot,
            smoothed(s, i as nat, lo, hi).1,
            #[trigger] e[i],
        )
}

fn energies<M: Fn(Function, Bits) -> Bits>(m: &M, s: &CrossSpectra, lo: Bits, hi: Bits) -> (e: Vec<Bits>)
    requires
        is_total(m),
        s.wf(),
        s.left@.len() > 0,
    ensures
        are_energies(m, s, lo, hi, e@),
{
    let n: usize = s.left.len();
    let mut e: Vec<Bits> = Vec::new();
    e.push(0);
    let mut i: usize = 1;
    while i < n
        invariant
            is_total(m),
            s.wf(),
            n == s.left@.len(),
            1 <= i <= n,
            e@.len() == i,
            e@[0] == 0,
            forall|k: int|
                1 <= k < i ==> gives(
                    m,
                    Function::SquareRoot,
                    smoothed(s, k as nat, lo, hi).1,
                    #[trigger] e@[k],
                ),
        decreases n - i,
    {
        let p: (Bits, Bits) = smooth_bin(s, i, lo, hi);
        e.push(evaluate(m, Function::SquareRoot, p.1));
        i = i + 1;
    }
    e
}

/// `w` is the weight of bin `i`: how far its energy has faded in.
pub open spec fn is_weight<M: Fn(Function, Bits) -> Bits>(m: &M, e: Seq<Bits>, i: int, w: Bits) -> bool {
    exists|log: Bits| #[trigger]
        gives(m, Function::Log10, relative(e, i), log) && w == faded(fmul(TEN, log), BAND_FLOOR, BAND_FADE)
}

/// `out` holds correlation and weight of the bins at a probe.
pub open spec fn is_band_correlation<M: Fn(Function, Bits) -> Bits, T: Fn(Vec<Bits>) -> Vec<Bin>>(
    m: &M,
    t: &T,
    samples: Seq<Bits>,
    ch: nat,
    center: nat,
    out: Seq<(Bits, Bits)>,
) -> bool {
    exists|window: Seq<Bits>, s: CrossSpectra, lo: Bits, hi: Bits, e: Seq<Bits>|
        #![trigger is_cross(t, samples, ch, center, window, &s), are_energies(m, &s, lo, hi, e)]
        {
            &&& is_hann(m, CORR_FFT_SIZE as nat, window)
            &&& is_cross(t, samples, ch, center, window, &s)
            &&& gives(m, Function::TwoTo, SMOOTH_DOWN, lo)
            &&& gives(m, Function::TwoTo, SMOOTH_UP, hi)
            &&& are_energies(m, &s, lo, hi, e)
            &&& out.len() == e.len()
            &&& out.len() > 0 ==> out[0] == (0u32, 0u32)
            &&& forall|i: int| 1 <= i < out.len() ==> is_band(m, &s, lo, hi, e, i, #[trigger] out[i])
        }
}

/// `p` is correlation and weight of bin `i`.
pub open spec fn is_band<M: Fn(Function, Bits) -> Bits>(
    m: &M,
    s: &CrossSpectra,
    lo: Bits,
    hi: Bits,
    e: Seq<Bits>,
    i: int,
    p: (Bits, Bits),
) -> bool {
    &&& p.0 == correlation_of(smoothed(s, i as nat, lo, hi).0, e[i])
    &&& is_weight(m, e, i, p.1)
}

/// Correlation and weight of every frequency around a frame; none for mono and
/// for a file that is too short.
pub fn band_correlation<M: Fn(Function, Bits) -> Bits, T: Fn(Vec<Bits>) -> Vec<Bin>>(
    m: &M,
    t: &T,
    samples: &Vec<Bits>,
    channels: usize,
    center_frame: usize,
) -> (r: Option<Vec<(Bits, Bits)>>)
    requires
        is_total(m),
        is_transform(t),
    ensures
        r is None <==> channels < 2 || samples@.len() / (channels as nat) < CORR_FFT_SIZE,
        r is Some ==> is_band_correlation(
            m,
            t,
            samples@,
            channels as nat,
            center_frame as nat,
            r->0@,
        ),
{
    if channels < 2 || samples.len() / channels < CORR_FFT_SIZE {
        return None;
    }
    let window: Vec<Bits> = hann_n(m, CORR_FFT_SIZE);
    let s: CrossSpectra = cross_spectra(t, samples, channels, center_frame, &window);
    let lo: Bits = evaluate(m, Function::TwoTo, SMOOTH_DOWN);
    let hi: Bits = evaluate(m, Function::TwoTo, SMOOTH_UP);
    let e: Vec<Bits> = energies(m, &s, lo, hi);
    let shares: Vec<Bits> = relative_energies(&e);
    let n: usize = e.len();
    let mut out: Vec<(Bits, Bits)> = Vec::new();
    out.push((0, 0));
    let mut i: usize = 1;
    while i < n
        invariant
            is_total(m),
            s.wf(),
            n == s.left@.len() == e@.len(),
            shares@ == Seq::new(e@.len(), |k: int| relative(e@, k)),
            1 <= i <= n,
            out@.len() == i,
            out@[0] == (0u32, 0u32),
            forall|k: int| 1 <= k < i ==> is_band(m, &s, lo, hi, e@, k, #[trigger] out@[k]),
        decreases n - i,
    {
        let p: (Bits, Bits) = smooth_bin(&s, i, lo, hi);
        let log: Bits = evaluate(m, Function::Log10, shares[i]);
        assert(gives(m, Function::Log10, relative(e@, i as int), log));
        let w: Bits = fade_weight(multiply(TEN, log), BAND_FLOOR, BAND_FADE);
        assert(is_weight(m, e@, i as int, w));
        out.push((correlate(p.0, e[i]), w));
        i = i + 1;
    }
    proof {
        assert(is_cross(t, samples@, channels as nat, center_frame as nat, window@, &s));
        assert(are_energies(m, &s, lo, hi, e@));
    }
    Some(out)
}

// ---- Timeline ---------------------------------------------------------------

/// The correlation of a file, window by window.
pub struct CorrTimeline {
    /// Correlation and weight of each window.
    pub points: Vec<(Bits, Bits)>,
    /// Seconds from one window to the next.
    pub hop_secs: Bits,
}

impl CorrTimeline {
    /// What is known at a time. Before the start and behind the last window
    /// that is nothing.
    pub open spec fn at_time(&self, secs: Bits) -> Option<(Bits, Bits)> {
        let i = truncated(fdiv(secs, self.hop_secs));
        if at_most(self.hop_secs, 0) || !at_most(0, secs) || i >= self.points@.len() {
            None
        } else {
            Some(self.points@[i as int])
        }
    }

    /// The window at a time, if there is one.
    pub fn at(&self, secs: Bits) -> (r: Option<(Bits, Bits)>)
        ensures
            r == self.at_time(secs),
    {
        let i: u64 = truncate(divide_by(secs, self.hop_secs));
        if is_at_most(self.hop_secs, 0) || !is_at_most(0, secs) || i >= self.points.len() as u64 {
            None
        } else {
            Some(self.points[i as usize])
        }
    }
}

/// How a file is cut into windows for the timeline.
#[derive(Clone, Copy, PartialEq, Eq, Debug, Structural)]
pub struct Layout {
    pub window: usize,
    pub hop: usize,
    pub count: usize,
}

/// Frames of a tenth of a second, but not too few.
pub open spec fn timeline_window(rate: u32) -> nat {
    most(truncated(fmul(TENTH, number(rate as nat))), SHORTEST_WINDOW as nat)
}

pub open spec fn layout_of(len: nat, channels: nat, rate: u32) -> Option<Layout> {
    let window = timeline_window(rate);
    if channels < 2 || rate == 0 || len / channels < window {
        None
    } else {
        let hop = window / 2;
        Some(
            Layout {
                window: window as usize,
                hop: hop as usize,
                count: ((len / channels - window) / hop as int + 1) as usize,
            },
        )
    }
}

/// The windows of the timeline of `len` interleaved samples. Mono and short
/// files have none.
pub fn timeline_layout(len: usize, channels: usize, rate: u32) -> (r: Option<Layout>)
    ensures
        r == layout_of(len as nat, channels as nat, rate),
        r is Some ==> r->0.hop > 0 && r->0.count > 0 && (r->0.count - 1) * r->0.hop + r->0.window
            <= len / channels,
{
    if channels < 2 || rate == 0 {
        return None;
    }
    let frames: usize = len / channels;
    let t: u64 = truncate(multiply(TENTH, from_whole(rate as u64)));
    let w: u64 = if t < SHORTEST_WINDOW as u64 {
        SHORTEST_WINDOW as u64
    } else {
        t
    };
    if (frames as u64) < w {
        return None;
    }
    let window: usize = w as usize;
    let hop: usize = window / 2;
    let k: usize = (frames - window) / hop;
    proof {
        vstd::arithmetic::div_mod::lemma_fundamental_div_mod((frames - window) as int, hop as int);
        vstd::arithmetic::div_mod::lemma_mod_bound((frames - window) as int, hop as int);
        assert(k * hop <= frames - window) by (nonlinear_arith)
            requires
                frames - window == hop * k + (frames - window) % hop as int,
                0 <= (frames - window) % hop as int,
        ;
        assert(k <= k * hop) by (nonlinear_arith)
            requires
                k >= 0,
                hop >= 1,
        ;
    }
    Some(Layout { window, hop, count: k + 1 })
}

// ---- The curve over frequency -----------------------------------------------

/// The bins that a pixel of the curve shows.
pub open spec fn curve_bins(lo_hz: Bits, hi_hz: Bits, rate: u32, bins: nat) -> Option<(nat, nat)> {
    let a = most(truncated(bin_at(lo_hz, rate, bins)), 1);
    if a >= bins {
        None
    } else {
        Some((a, least(most(raised(bin_at(hi_hz, rate, bins)), a + 1), bins)))
    }
}

/// The sum of the weighted correlations of bands `a` up to `b`.
pub open spec fn weighted_sum(bands: Seq<(Bits, Bits)>, a: int, b: int) -> Bits
    decreases b - a,
{
    if b <= a {
        0
    } else {
        fadd(weighted_sum(bands, a, b - 1), fmul(bands[b - 1].0, bands[b - 1].1))
    }
}

/// The sum of the weights of bands `a` up to `b`.
pub open spec fn weight_sum(bands: Seq<(Bits, Bits)>, a: int, b: int) -> Bits
    decreases b - a,
{
    if b <= a {
        0
    } else {
        fadd(weight_sum(bands, a, b - 1), bands[b - 1].1)
    }
}

/// What a pixel of the curve shows: the weighted mean of its bands and their
/// mean weight. Nothing where all are silent.
pub open spec fn curve_point(bands: Seq<(Bits, Bits)>, lo_hz: Bits, hi_hz: Bits, rate: u32) -> Option<
    (Bits, Bits),
> {
    match curve_bins(lo_hz, hi_hz, rate, bands.len()) {
        None => None,
        Some((a, b)) => {
            let wsum = weight_sum(bands, a as int, b as int);
            if less(MILLIONTH, wsum) {
                Some(
                    (
                        fdiv(weighted_sum(bands, a as int, b as int), wsum),
                        clamped(fdiv(wsum, number((b - a) as nat)), 0, ONE),
                    ),
                )
            } else {
                None
            }
        },
    }
}

/// What a pixel that covers the frequencies from `lo_hz` to `hi_hz` shows.
pub fn curve_at(bands: &Vec<(Bits, Bits)>, lo_hz: Bits, hi_hz: Bits, rate: u32) -> (r: Option<
    (Bits, Bits),
>)
    ensures
        r == curve_point(bands@, lo_hz, hi_hz, rate),
{
    let bins: usize = bands.len();
    let t: u64 = truncate(find_bin(lo_hz, rate, bins));
    let first: u64 = if t < 1 {
        1
    } else {
        t
    };
    if first >= bins as u64 {
        return None;
    }
    let a: usize = first as usize;
    let c: u64 = ceiling(find_bin(hi_hz, rate, bins));
    let b: usize = if c <= first {
        a + 1
    } else if c < bins as u64 {
        c as usize
    } else {
        bins
    };
    let mut acc: Bits = 0;
    let mut wsum: Bits = 0;
    let mut i: usize = a;
    while i < b
        invariant
            a <= i <= b <= bands@.len(),
            acc == weighted_sum(bands@, a as int, i as int),
            wsum == weight_sum(bands@, a as int, i as int),
        decreases b - i,
    {
        acc = add_to(acc, multiply(bands[i].0, bands[i].1));
        wsum = add_to(wsum, bands[i].1);
        i = i + 1;
    }
    if less_than(MILLIONTH, wsum) {
        proof {
            lemma_zero_one();
        }
        Some((divide_by(acc, wsum), clamp(divide_by(wsum, from_whole((b - a) as u64)), 0, ONE)))
    } else {
        None
    }
}

/// Is a pixel of the curve drawn?
pub open spec fn drawn(p: Option<(Bits, Bits)>) -> bool {
    p is Some && less(DRAWN_FROM, (p->0).1)
}

fn is_drawn(p: &Option<(Bits, Bits)>) -> (r: bool)
    ensures
        r == drawn(*p),
{
    match p {
        Some(q) => less_than(DRAWN_FROM, q.1),
        None => false,
    }
}

/// The lowest correlation among the first `n` pixels that are drawn, at most
/// one.
pub open spec fn lowest(curve: Seq<Option<(Bits, Bits)>>, n: int) -> Bits
    decreases n,
{
    if n <= 0 {
        ONE
    } else {
        let rest = lowest(curve, n - 1);
        if drawn(curve[n - 1]) && less((curve[n - 1]->0).0, rest) {
            (curve[n - 1]->0).0
        } else {
            rest
        }
    }
}

/// The lowest correlation that the curve draws; none where it draws nothing.
pub fn worst_band(curve: &Vec<Option<(Bits, Bits)>>) -> (r: Option<Bits>)
    ensures
        r is Some <==> exists|i: int| 0 <= i < curve@.len() && drawn(#[trigger] curve@[i]),
        r is Some ==> r->0 == lowest(curve@, curve@.len() as int),
{
    let mut low: Bits = ONE;
    let mut any: bool = false;
    let mut i: usize = 0;
    while i < curve.len()
        invariant
            i <= curve@.len(),
            low == lowest(curve@, i as int),
            any <==> exists|k: int| 0 <= k < i && drawn(#[trigger] curve@[k]),
        decreases curve@.len() - i,
    {
        if is_drawn(&curve[i]) {
            any = true;
            assert(drawn(curve@[i as int]));
            if let Some(q) = curve[i] {
                if less_than(q.0, low) {
                    low = q.0;
                }
            }
        }
        i = i + 1;
    }
    if any {
        Some(low)
    } else {
        None
    }
}

/// How bad the lowest correlation of the curve is.
#[derive(Clone, Copy, PartialEq, Eq, Debug, Structural)]
pub enum Concern {
    /// Not worth a word.
    Fine,
    Narrow,
    Weak,
    OutOfPhase,
}

pub open spec fn concern(c: Bits) -> Concern {
    if !less(c, FINE_FROM) {
        Concern::Fine
    } else if less(c, 0) {
        Concern::OutOfPhase
    } else if less(c, NARROW_FROM) {
        Concern::Weak
    } else {
        Concern::Narrow
    }
}

/// How bad a correlation is.
pub fn rate_correlation(c: Bits) -> (r: Concern)
    ensures
        r == concern(c),
{
    if !less_than(c, FINE_FROM) {
        Concern::Fine
    } else if less_than(c, 0) {
        Concern::OutOfPhase
    } else if less_than(c, NARROW_FROM) {
        Concern::Weak
    } else {
        Concern::Narrow
    }
}

/// The height of a correlation in the plot.
pub open spec fn plot_height(c: Bits, top: Bits, height: Bits) -> Bits {
    fadd(top, fmul(fsub(ONE, clamped(fdiv(fadd(c, ONE), TWO), 0, ONE)), height))
}

/// The height of a correlation in the plot.
pub fn plot_y(c: Bits, top: Bits, height: Bits) -> (r: Bits)
    ensures
        r == plot_height(c, top, height),
{
    proof {
        lemma_zero_one();
    }
    let t: Bits = clamp(divide_by(add_to(c, ONE), TWO), 0, ONE);
    add_to(top, multiply(subtract(ONE, t), height))
}

/// One pixel column of the area between the curve and zero.
#[derive(Clone, Copy, PartialEq, Eq, Debug, Structural)]
pub struct Bar {
    pub top: Bits,
    pub height: Bits,
    pub shade: Shade,
    pub alpha: Bits,
}

/// The column of the area below, or above, the curve.
pub open spec fn area(p: Option<(Bits, Bits)>, top: Bits, height: Bits) -> Option<Bar> {
    if p is None || at_most((p->0).1, FILLED_FROM) {
        None
    } else {
        let c = (p->0).0;
        let at = plot_height(c, top, height);
        let zero = plot_height(0, top, height);
        let (a, b) = if less(at, zero) {
            (at, zero)
        } else {
            (zero, at)
        };
        Some(
            Bar {
                top: a,
                height: fmax(fsub(b, a), HALF),
                shade: ramp_at(c),
                alpha: fmul(
                    if less(c, 0) {
                        ALPHA_OUT_OF_PHASE
                    } else {
                        ALPHA_IN_PHASE
                    },
                    (p->0).1,
                ),
            },
        )
    }
}

/// The column of the area below, or above, the curve.
pub fn fill_bar(p: &Option<(Bits, Bits)>, top: Bits, height: Bits) -> (r: Option<Bar>)
    ensures
        r == area(*p, top, height),
{
    match p {
        None => None,
        Some(q) => {
            let (c, wt): (Bits, Bits) = *q;
            if is_at_most(wt, FILLED_FROM) {
                return None;
            }
            let at: Bits = plot_y(c, top, height);
            let zero: Bits = plot_y(0, top, height);
            let (a, b): (Bits, Bits) = if less_than(at, zero) {
                (at, zero)
            } else {
                (zero, at)
            };
            let share: Bits = if less_than(c, 0) {
                ALPHA_OUT_OF_PHASE
            } else {
                ALPHA_IN_PHASE
            };
            Some(
                Bar {
                    top: a,
                    height: larger(subtract(b, a), HALF),
                    shade: corr_color_ramp(c),
                    alpha: multiply(share, wt),
                },
            )
        },
    }
}

// ---- Segments ---------------------------------------------------------------

/// A stretch of pixels that one line goes through: as long as it can be, and
/// more than one pixel.
pub open spec fn is_segment(curve: Seq<Option<(Bits, Bits)>>, s: (usize, usize)) -> bool {
    &&& s.0 + 1 < s.1 <= curve.len()
    &&& forall|i: int| s.0 <= i < s.1 ==> drawn(#[trigger] curve[i])
    &&& s.0 > 0 ==> !drawn(curve[s.0 - 1])
    &&& s.1 < curve.len() ==> !drawn(curve[s.1 as int])
}

/// The lines of the curve among its first `n` pixels: no line bridges a pixel
/// that is not drawn, and no two drawn neighbours go without one.
pub open spec fn are_segments(list: Seq<(usize, usize)>, curve: Seq<Option<(Bits, Bits)>>) -> bool {
    &&& forall|k: int| 0 <= k < list.len() ==> is_segment(curve, #[trigger] list[k])
    &&& forall|j: int, k: int|
        0 <= j < k < list.len() ==> (#[trigger] list[j]).1 < (#[trigger] list[k]).0
    &&& forall|i: int|
        #![trigger drawn(curve[i])]
        0 <= i && i + 1 < curve.len() && drawn(curve[i]) && drawn(curve[i + 1]) ==> exists|k: int|
            0 <= k < list.len() && (#[trigger] list[k]).0 <= i && i + 1 < list[k].1
}

/// Finds the end of the stretch of drawn pixels that begins at `a`.
fn stretch_end(curve: &Vec<Option<(Bits, Bits)>>, a: usize) -> (b: usize)
    requires
        a < curve@.len(),
        drawn(curve@[a as int]),
    ensures
        a < b <= curve@.len(),
        forall|i: int| a <= i < b ==> drawn(#[trigger] curve@[i]),
        b < curve@.len() ==> !drawn(curve@[b as int]),
{
    let n: usize = curve.len();
    let mut b: usize = a + 1;
    while b < n && is_drawn(&curve[b])
        invariant
            n == curve@.len(),
            a < b <= curve@.len(),
            forall|i: int| a <= i < b ==> drawn(#[trigger] curve@[i]),
        decreases curve@.len() - b,
    {
        b = b + 1;
    }
    b
}

/// Cuts the curve into lines.
pub fn segments(curve: &Vec<Option<(Bits, Bits)>>) -> (list: Vec<(usize, usize)>)
    ensures
        are_segments(list@, curve@),
{
    let mut list: Vec<(usize, usize)> = Vec::new();
    let mut i: usize = 0;
    while i < curve.len()
        invariant
            i <= curve@.len(),
            forall|k: int| 0 <= k < list@.len() ==> is_segment(curve@, #[trigger] list@[k]),
            forall|j: int, k: int|
                0 <= j < k < list@.len() ==> (#[trigger] list@[j]).1 < (#[trigger] list@[k]).0,
            forall|k: int| 0 <= k < list@.len() ==> (#[trigger] list@[k]).1 < i || (list@[k].1 == i
                == curve@.len()),
            0 < i < curve@.len() ==> !drawn(curve@[i - 1]),
            forall|p: int|
                #![trigger drawn(curve@[p])]
                0 <= p < i && p + 1 < curve@.len() && drawn(curve@[p]) && drawn(curve@[p + 1])
                    ==> exists|k: int|
                    0 <= k < list@.len() && (#[trigger] list@[k]).0 <= p && p + 1 < list@[k].1,
        decreases curve@.len() - i,
    {
        let ghost before = list@;
        let ghost from = i as int;
        if is_drawn(&curve[i]) {
            let b: usize = stretch_end(curve, i);
            if b > i + 1 {
                assert(is_segment(curve@, (i, b)));
                list.push((i, b));
            }
            let next: usize = if b < curve.len() {
                b + 1
            } else {
                b
            };
            proof {
                assert forall|p: int|
                    #![trigger drawn(curve@[p])]
                    0 <= p < next && p + 1 < curve@.len() && drawn(curve@[p]) && drawn(
                        curve@[p + 1],
                    ) implies exists|k: int|
                    0 <= k < list@.len() && (#[trigger] list@[k]).0 <= p && p + 1 < list@[k].1 by {
                    if p < from {
                        let k = choose|k: int|
                            0 <= k < before.len() && (#[trigger] before[k]).0 <= p && p + 1
                                < before[k].1;
                        assert(list@[k] == before[k]);
                    } else if p + 1 < b {
                        assert(list@[list@.len() - 1] == (i, b));
                    }
                }
            }
            i = next;
        } else {
            i = i + 1;
        }
    }
    list
}

// ---- The strip over time ----------------------------------------------------

/// The windows that column `i` of `n` of the strip shows.
pub open spec fn column_windows(tl: &CorrTimeline, i: nat, n: nat, duration: Bits) -> Option<(nat, nat)> {
    let span = fmax(duration, MILLIONTH);
    let t0 = fmul(fdiv(number(i), number(n)), span);
    let t1 = fmul(fdiv(number(i + 1), number(n)), span);
    let len = tl.points@.len();
    let a = truncated(fdiv(t0, tl.hop_secs));
    let b = least(truncated(fdiv(t1, tl.hop_secs)) + 1, len);
    if a >= len {
        None
    } else {
        Some((a, least(most(b, a + 1), len)))
    }
}

/// Does a window count?
pub open spec fn counts(p: (Bits, Bits)) -> bool {
    !at_most(p.1, COUNTED_FROM)
}

/// The lowest correlation and the greatest weight of the windows from `a` on up
/// to `b` that count.
pub open spec fn worst_in(points: Seq<(Bits, Bits)>, a: int, b: int) -> (Bits, Bits)
    decreases b - a,
{
    if b <= a {
        (GREATEST, 0)
    } else {
        let (c, w) = worst_in(points, a, b - 1);
        let p = points[b - 1];
        if counts(p) {
            (
                if less(p.0, c) {
                    p.0
                } else {
                    c
                },
                if less(w, p.1) {
                    p.1
                } else {
                    w
                },
            )
        } else {
            (c, w)
        }
    }
}

/// What a column of the strip shows: the worst correlation of its windows. A
/// column whose windows are silent shows nothing.
pub open spec fn strip_value(tl: &CorrTimeline, i: nat, n: nat, duration: Bits) -> Option<(Bits, Bits)> {
    match column_windows(tl, i, n, duration) {
        None => None,
        Some((a, b)) => {
            let (c, w) = worst_in(tl.points@, a as int, b as int);
            if at_most(w, COUNTED_FROM) || c == GREATEST {
                None
            } else {
                Some((c, w))
            }
        },
    }
}

/// What column `i` of `n` of the strip shows.
pub fn strip_column(tl: &CorrTimeline, i: usize, n: usize, duration: Bits) -> (r: Option<(Bits, Bits)>)
    requires
        i < n,
    ensures
        r == strip_value(tl, i as nat, n as nat, duration),
{
    let len: usize = tl.points.len();
    let width: Bits = from_whole(n as u64);
    let span: Bits = larger(duration, MILLIONTH);
    let t0: Bits = multiply(divide_by(from_whole(i as u64), width), span);
    let t1: Bits = multiply(divide_by(from_whole(i as u64 + 1), width), span);
    let first: u64 = truncate(divide_by(t0, tl.hop_secs));
    if first >= len as u64 {
        return None;
    }
    let a: usize = first as usize;
    let last: u64 = truncate(divide_by(t1, tl.hop_secs));
    let b: usize = if last >= len as u64 {
        len
    } else if last < first {
        a + 1
    } else {
        last as usize + 1
    };
    let mut c: Bits = GREATEST;
    let mut w: Bits = 0;
    let mut k: usize = a;
    while k < b
        invariant
            a <= k <= b <= tl.points@.len(),
            (c, w) == worst_in(tl.points@, a as int, k as int),
        decreases b - k,
    {
        let (pc, pw): (Bits, Bits) = tl.points[k];
        if !is_at_most(pw, COUNTED_FROM) {
            if less_than(pc, c) {
                c = pc;
            }
            if less_than(w, pw) {
                w = pw;
            }
        }
        k = k + 1;
    }
    if is_at_most(w, COUNTED_FROM) || c == GREATEST {
        None
    } else {
        Some((c, w))
    }
}

/// How high a correlation stands in the strip. The upper half of the healthy
/// range takes most of the height.
pub open spec fn strip_height(c: Bits, h: Bits) -> Bits {
    let v = clamped(c, MINUS_ONE, ONE);
    fmul(
        if at_most(HALF, v) {
            fadd(LOWER_SHARE, fmul(fdiv(fsub(v, HALF), HALF), UPPER_SHARE))
        } else {
            fmul(fdiv(fadd(v, ONE), ONE_AND_HALF), LOWER_SHARE)
        },
        h,
    )
}

/// How high a correlation stands in the strip.
pub fn corr_to_h(c: Bits, h: Bits) -> (r: Bits)
    ensures
        r == strip_height(c, h),
{
    proof {
        lemma_full_scale();
    }
    let v: Bits = clamp(c, MINUS_ONE, ONE);
    let share: Bits = if is_at_most(HALF, v) {
        add_to(LOWER_SHARE, multiply(divide_by(subtract(v, HALF), HALF), UPPER_SHARE))
    } else {
        multiply(divide_by(add_to(v, ONE), ONE_AND_HALF), LOWER_SHARE)
    };
    multiply(share, h)
}

/// A column of the strip, `y` being its lower edge.
pub open spec fn strip_shape(value: (Bits, Bits), y: Bits, h: Bits) -> Bar {
    let tall = fmax(strip_height(value.0, h), ONE);
    Bar {
        top: fsub(y, tall),
        height: tall,
        shade: ramp_at(value.0),
        alpha: fmul(
            fadd(ALPHA_LEAST, fmul(ALPHA_SPAN, fsub(ONE, clamped(value.0, 0, ONE)))),
            value.1,
        ),
    }
}

/// A column of the strip, `y` being its lower edge.
pub fn strip_bar(value: (Bits, Bits), y: Bits, h: Bits) -> (r: Bar)
    ensures
        r == strip_shape(value, y, h),
{
    proof {
        lemma_zero_one();
    }
    let tall: Bits = larger(corr_to_h(value.0, h), ONE);
    let strength: Bits = add_to(
        ALPHA_LEAST,
        multiply(ALPHA_SPAN, subtract(ONE, clamp(value.0, 0, ONE))),
    );
    Bar {
        top: subtract(y, tall),
        height: tall,
        shade: corr_color_ramp(value.0),
        alpha: multiply(strength, value.1),
    }
}

// ---- Colours ----------------------------------------------------------------

/// The stretch of a falling ramp that holds `t`, counted from stretch `i`; the
/// first where none does.
pub open spec fn stretch_down(stops: Seq<Stop>, t: Bits, i: nat) -> nat
    decreases stops.len() - i,
{
    if i + 1 >= stops.len() {
        0
    } else if at_most(t, stops[i as int].at) && at_most(stops[i as int + 1].at, t) {
        i
    } else {
        stretch_down(stops, t, i + 1)
    }
}

/// Green while the channels agree, then amber, orange and red.
pub open spec fn ramp_stops() -> Seq<Stop> {
    seq![
        Stop { at: 0x3f80_0000, shade: Shade { r: 0x3e99_999a, g: 0x3f38_51ec, b: 0x3ee6_6666 } },
        Stop { at: 0x3f00_0000, shade: Shade { r: 0x3eae_147b, g: 0x3f33_3333, b: 0x3ed7_0a3d } },
        Stop { at: 0x3e80_0000, shade: Shade { r: 0x3f47_ae14, g: 0x3f1e_b852, b: 0x3e85_1eb8 } },
        Stop { at: 0, shade: Shade { r: 0x3f57_0a3d, g: 0x3ee1_47ae, b: 0x3e75_c28f } },
        Stop { at: 0xbf80_0000, shade: Shade { r: 0x3f5c_28f6, g: 0x3e85_1eb8, b: 0x3e85_1eb8 } },
    ]
}

/// The colour of a correlation.
pub open spec fn ramp_at(c: Bits) -> Shade {
    let v = clamped(c, MINUS_ONE, ONE);
    let i = stretch_down(ramp_stops(), v, 0) as int;
    let a = ramp_stops()[i];
    let b = ramp_stops()[i + 1];
    between(a, b, clamped(fdiv(fsub(a.at, v), fmax(fsub(a.at, b.at), MILLIONTH)), 0, ONE))
}

/// The colour of a correlation.
pub fn corr_color_ramp(c: Bits) -> (r: Shade)
    ensures
        r == ramp_at(c),
{
    let stops: [Stop; 5] = [
        Stop { at: 0x3f80_0000, shade: Shade { r: 0x3e99_999a, g: 0x3f38_51ec, b: 0x3ee6_6666 } },
        Stop { at: 0x3f00_0000, shade: Shade { r: 0x3eae_147b, g: 0x3f33_3333, b: 0x3ed7_0a3d } },
        Stop { at: 0x3e80_0000, shade: Shade { r: 0x3f47_ae14, g: 0x3f1e_b852, b: 0x3e85_1eb8 } },
        Stop { at: 0, shade: Shade { r: 0x3f57_0a3d, g: 0x3ee1_47ae, b: 0x3e75_c28f } },
        Stop { at: 0xbf80_0000, shade: Shade { r: 0x3f5c_28f6, g: 0x3e85_1eb8, b: 0x3e85_1eb8 } },
    ];
    proof {
        lemma_full_scale();
        lemma_zero_one();
        assert(stops@ =~= ramp_stops());
    }
    let v: Bits = clamp(c, MINUS_ONE, ONE);
    let mut found: usize = 0;
    let mut i: usize = 0;
    let mut done: bool = false;
    while i < 4 && !done
        invariant
            stops@ == ramp_stops(),
            i <= 4,
            found < 4,
            done ==> found == stretch_down(ramp_stops(), v, 0),
            !done ==> found == 0 && stretch_down(ramp_stops(), v, 0) == stretch_down(
                ramp_stops(),
                v,
                i as nat,
            ),
        decreases 4 - i,
    {
        if is_at_most(v, stops[i].at) && is_at_most(stops[i + 1].at, v) {
            found = i;
            done = true;
        }
        i = i + 1;
    }
    let a: Stop = stops[found];
    let b: Stop = stops[found + 1];
    let span: Bits = larger(subtract(a.at, b.at), MILLIONTH);
    mix(a, b, clamp(divide_by(subtract(a.at, v), span), 0, ONE))
}

// ---- Laws -------------------------------------------------------------------

/// A phase problem survives the reduction to a column of the strip: no window
/// of the column that counts is worse than what the column shows.
pub proof fn law_worst_survives(points: Seq<(Bits, Bits)>, a: int, b: int, i: int)
    requires
        a <= i < b,
        counts(points[i]),
    ensures
        !less(points[i].0, worst_in(points, a, b).0),
    decreases b - a,
{
    if i < b - 1 {
        law_worst_survives(points, a, b - 1, i);
    }
}

/// A correlation stays between minus one and one, whatever was measured.
pub proof fn law_correlation_in_scale(both: Bits, root: Bits)
    requires
        !crate::single::is_nan(fdiv(both, root)),
    ensures
        at_most(MINUS_ONE, correlation_of(both, root)),
        at_most(correlation_of(both, root), ONE),
{
    lemma_full_scale();
    lemma_zero_one();
    crate::single::lemma_zero(0);
}

} // verus!
