//! The scatter of one band of frequencies.
//!
//! Both channels are transformed, all bins outside the band are cleared, and
//! the rest is transformed back. The scatter shows the signals that this leaves,
//! scaled so that a quiet band fills the scope too, along with their
//! correlation.

use vstd::prelude::*;
use crate::accuracy::{fine, is_near, lemma_fine, lemma_near_quotient, lemma_one, one};
use crate::arith::{number, from_whole};
use crate::double::{DoubleBits, narrow, narrowed};
use crate::fft::{CORR_FFT_SIZE, band_bins, bins_of_band, in_band, keeps_bin, probe_start, probe_window};
use crate::scalar::{absolute, divide_by, fabs, fdiv, fmax, fmul, larger, multiply, truncate};
use crate::single::{Bits, ONE, TWO, is_finite, last_digit, less, less_than, negative, significand, unsigned, value};
use crate::spectra::{Bin, is_spectrum, is_transform};
use crate::wide::{Operation, WIDE_TINY, WIDE_ZERO, below, compute, in_unit, is_arithmetic, is_below, over, plus, result, times, to_unit, widened};

verus! {

/// A band whose peak does not exceed this is silent.
pub const SILENT_BAND: Bits = 0x3089_705f;
/// How far the peak of a band reaches in the scope.
pub const SCOPE_REACH: Bits = 0x3f66_6666;

// ---- Filtering --------------------------------------------------------------

/// A supplied inverse transform takes all bins and gives as many values.
pub open spec fn is_inverse<V: Fn(Vec<Bin>) -> Vec<Bin>>(v: &V) -> bool {
    &&& forall|b: Vec<Bin>| #[trigger] call_requires(*v, (b,))
    &&& forall|b: Vec<Bin>, y: Vec<Bin>| #[trigger] call_ensures(*v, (b,), y) ==> y@.len() == b@.len()
}

/// The inverse transform may give the signal `y` for the bins `z`.
pub open spec fn is_signal<V: Fn(Vec<Bin>) -> Vec<Bin>>(v: &V, z: Seq<Bin>, y: Seq<Bin>) -> bool {
    exists|b: Vec<Bin>, w: Vec<Bin>| #[trigger] call_ensures(*v, (b,), w) && b@ == z && w@ == y
}

/// The samples of `n` frames of one channel.
pub open spec fn block(s: Seq<Bits>, start: nat, ch: nat, channel: nat, n: nat) -> Seq<Bits> {
    Seq::new(n, |i: int| s[(start + i) * ch + channel])
}

/// The bins inside a band, and nothing in place of the others.
pub open spec fn band_only(z: Seq<Bin>, band: (int, int)) -> Seq<Bin> {
    Seq::new(
        z.len(),
        |k: int|
            if in_band(k, z.len() as int, band) {
                z[k]
            } else {
                Bin { re: 0, im: 0 }
            },
    )
}

/// `y` is what a band leaves of a block of one channel.
pub open spec fn is_band_of<T: Fn(Vec<Bits>) -> Vec<Bin>, V: Fn(Vec<Bin>) -> Vec<Bin>>(
    t: &T,
    v: &V,
    b: Seq<Bits>,
    band: (int, int),
    y: Seq<Bin>,
) -> bool {
    exists|z: Seq<Bin>| #[trigger] is_spectrum(t, b, z) && is_signal(v, band_only(z, band), y)
}

fn band_of<T: Fn(Vec<Bits>) -> Vec<Bin>, V: Fn(Vec<Bin>) -> Vec<Bin>>(
    t: &T,
    v: &V,
    s: &Vec<Bits>,
    start: usize,
    ch: usize,
    channel: usize,
    n: usize,
    band: (usize, usize),
) -> (y: Vec<Bin>)
    requires
        is_transform(t),
        is_inverse(v),
        channel < ch,
        (start + n) * ch <= s@.len(),
    ensures
        y@.len() == n,
        is_band_of(
            t,
            v,
            block(s@, start as nat, ch as nat, channel as nat, n as nat),
            (band.0 as int, band.1 as int),
            y@,
        ),
{
    let total: usize = s.len();
    let mut b: Vec<Bits> = Vec::new();
    let mut i: usize = 0;
    while i < n
        invariant
            channel < ch,
            (start + n) * ch <= s@.len() == total,
            i <= n,
            b@ =~= block(s@, start as nat, ch as nat, channel as nat, n as nat).take(i as int),
        decreases n - i,
    {
        assert((start + i) * ch + channel < (start + n) * ch && 0 <= (start + i) * ch && start + i
            <= (start + i) * ch) by (nonlinear_arith)
            requires
                channel < ch,
                0 <= start,
                0 <= i < n,
        ;
        b.push(s[(start + i) * ch + channel]);
        i = i + 1;
    }
    assert(b@ =~= block(s@, start as nat, ch as nat, channel as nat, n as nat));
    let ghost given = b;
    let mut z: Vec<Bin> = t(b);
    let ghost spectrum = z@;
    let ghost edges = (band.0 as int, band.1 as int);
    assert(call_ensures(*t, (given,), z));
    assert(is_spectrum(t, given@, spectrum));
    let mut k: usize = 0;
    while k < n
        invariant
            k <= n == z@.len() == spectrum.len(),
            edges == (band.0 as int, band.1 as int),
            z@.take(k as int) =~= band_only(spectrum, edges).take(k as int),
            z@.skip(k as int) =~= spectrum.skip(k as int),
        decreases n - k,
    {
        let ghost before = z@;
        assert(before[k as int] == spectrum[k as int]) by {
            assert(before.skip(k as int)[0] == spectrum.skip(k as int)[0]);
        }
        if !keeps_bin(k, n, band) {
            z.set(k, Bin { re: 0, im: 0 });
        }
        assert(z@.take(k + 1) =~= before.take(k as int).push(z@[k as int]));
        assert(band_only(spectrum, edges).take(k + 1) =~= band_only(spectrum, edges).take(k as int).push(
            band_only(spectrum, edges)[k as int],
        ));
        assert(z@.skip(k + 1) =~= before.skip(k as int).skip(1));
        assert(spectrum.skip(k + 1) =~= spectrum.skip(k as int).skip(1));
        k = k + 1;
    }
    assert(z@.take(n as int) =~= z@);
    assert(band_only(spectrum, edges).take(n as int) =~= band_only(spectrum, edges));
    let ghost kept = z;
    let y: Vec<Bin> = v(z);
    assert(call_ensures(*v, (kept,), y));
    assert(is_signal(v, band_only(spectrum, edges), y@));
    y
}

// ---- Correlation ------------------------------------------------------------

/// The sums over the first `k` values of two signals: of their squares and of
/// their product.
pub open spec fn band_sums<D: Fn(Operation, DoubleBits, DoubleBits) -> DoubleBits>(
    d: &D,
    l: Seq<Bin>,
    r: Seq<Bin>,
    scale: Bits,
    k: int,
) -> (DoubleBits, DoubleBits, DoubleBits)
    decreases k,
{
    if k <= 0 {
        (WIDE_ZERO, WIDE_ZERO, WIDE_ZERO)
    } else {
        let (ll, rr, lr) = band_sums(d, l, r, scale, k - 1);
        let a = widened(d, fmul(l[k - 1].re, scale));
        let b = widened(d, fmul(r[k - 1].re, scale));
        (plus(d, ll, times(d, a, a)), plus(d, rr, times(d, b, b)), plus(d, lr, times(d, a, b)))
    }
}

/// `c` is the correlation of two signals; those that are next to silent have
/// none.
pub open spec fn is_band_correlation<D: Fn(Operation, DoubleBits, DoubleBits) -> DoubleBits>(
    d: &D,
    sums: (DoubleBits, DoubleBits, DoubleBits),
    c: Bits,
) -> bool {
    let root = result(d, Operation::SquareRoot, times(d, sums.0, sums.1), 0);
    if below(WIDE_TINY, root) {
        narrowed(in_unit(over(d, sums.2, root)), c)
    } else {
        c == 0
    }
}

fn correlate_band<D: Fn(Operation, DoubleBits, DoubleBits) -> DoubleBits>(
    d: &D,
    l: &Vec<Bin>,
    r: &Vec<Bin>,
    scale: Bits,
) -> (c: Bits)
    requires
        is_arithmetic(d),
        l@.len() == r@.len(),
    ensures
        is_band_correlation(d, band_sums(d, l@, r@, scale, l@.len() as int), c),
{
    let mut ll: DoubleBits = WIDE_ZERO;
    let mut rr: DoubleBits = WIDE_ZERO;
    let mut lr: DoubleBits = WIDE_ZERO;
    let mut i: usize = 0;
    while i < l.len()
        invariant
            is_arithmetic(d),
            i <= l@.len() == r@.len(),
            (ll, rr, lr) == band_sums(d, l@, r@, scale, i as int),
        decreases l@.len() - i,
    {
        let a: DoubleBits = compute(d, Operation::FromSingle, multiply(l[i].re, scale) as u64, 0);
        let b: DoubleBits = compute(d, Operation::FromSingle, multiply(r[i].re, scale) as u64, 0);
        let aa: DoubleBits = compute(d, Operation::Times, a, a);
        let bb: DoubleBits = compute(d, Operation::Times, b, b);
        let ab: DoubleBits = compute(d, Operation::Times, a, b);
        ll = compute(d, Operation::Plus, ll, aa);
        rr = compute(d, Operation::Plus, rr, bb);
        lr = compute(d, Operation::Plus, lr, ab);
        i = i + 1;
    }
    let both: DoubleBits = compute(d, Operation::Times, ll, rr);
    let root: DoubleBits = compute(d, Operation::SquareRoot, both, 0);
    if is_below(WIDE_TINY, root) {
        narrow(to_unit(compute(d, Operation::Over, lr, root)))
    } else {
        0
    }
}

// ---- The scatter ------------------------------------------------------------

/// The greatest of the first `k` values of two signals.
pub open spec fn band_peak(l: Seq<Bin>, r: Seq<Bin>, scale: Bits, k: int) -> Bits
    decreases k,
{
    if k <= 0 {
        0
    } else {
        fmax(
            band_peak(l, r, scale, k - 1),
            fmul(fmax(fabs(l[k - 1].re), fabs(r[k - 1].re)), scale),
        )
    }
}

/// The gain that lets the peak reach far into the scope.
pub open spec fn scope_gain(peak: Bits) -> Bits {
    if less(SILENT_BAND, peak) {
        fdiv(SCOPE_REACH, peak)
    } else {
        0
    }
}

/// From one point of the scatter to the next.
pub open spec fn scatter_step(n: nat, max_points: nat) -> nat {
    let step = n / (if max_points == 0 {
        1
    } else {
        max_points
    });
    if step == 0 {
        1
    } else {
        step
    }
}

/// The points of the scatter: every `step`-th value of both signals.
pub open spec fn scatter(l: Seq<Bin>, r: Seq<Bin>, scale: Bits, gain: Bits, step: nat) -> Seq<(Bits, Bits)> {
    Seq::new(
        ((l.len() + step - 1) / step as int) as nat,
        |j: int|
            (
                fmul(fmul(l[j * step].re, scale), gain),
                fmul(fmul(r[j * step].re, scale), gain),
            ),
    )
}

fn scatter_of(l: &Vec<Bin>, r: &Vec<Bin>, scale: Bits, gain: Bits, step: usize) -> (out: Vec<(Bits, Bits)>)
    requires
        l@.len() == r@.len(),
        0 < step <= l@.len(),
        l@.len() < 0x1_0000,
    ensures
        out@ == scatter(l@, r@, scale, gain, step as nat),
{
    let n: usize = l.len();
    let count: usize = (n + step - 1) / step;
    let mut out: Vec<(Bits, Bits)> = Vec::new();
    let mut j: usize = 0;
    while j < count
        invariant
            n == l@.len() == r@.len(),
            0 < step <= n < 0x1_0000,
            count == (n + step - 1) / step as int,
            j <= count,
            out@ =~= scatter(l@, r@, scale, gain, step as nat).take(j as int),
        decreases count - j,
    {
        proof {
            vstd::arithmetic::div_mod::lemma_fundamental_div_mod((n + step - 1) as int, step as int);
            vstd::arithmetic::div_mod::lemma_mod_bound((n + step - 1) as int, step as int);
            assert(j * step < n && 0 <= j * step) by (nonlinear_arith)
                requires
                    0 <= j <= count - 1,
                    step * count <= n + step - 1,
                    step > 0,
            ;
        }
        let a: Bits = multiply(multiply(l[j * step].re, scale), gain);
        let b: Bits = multiply(multiply(r[j * step].re, scale), gain);
        out.push((a, b));
        j = j + 1;
    }
    out
}

/// `points` and `corr` are what the scope shows of two signals.
#[verifier::opaque]
pub open spec fn is_scatter<D: Fn(Operation, DoubleBits, DoubleBits) -> DoubleBits>(
    d: &D,
    l: Seq<Bin>,
    r: Seq<Bin>,
    max_points: nat,
    points: Seq<(Bits, Bits)>,
    corr: Bits,
) -> bool {
    let n = l.len();
    let scale = fdiv(ONE, number(n));
    &&& points == scatter(
        l,
        r,
        scale,
        scope_gain(band_peak(l, r, scale, n as int)),
        scatter_step(n, max_points),
    )
    &&& is_band_correlation(d, band_sums(d, l, r, scale, n as int), corr)
}

fn scope<D: Fn(Operation, DoubleBits, DoubleBits) -> DoubleBits>(
    d: &D,
    l: &Vec<Bin>,
    r: &Vec<Bin>,
    max_points: usize,
) -> (out: (Vec<(Bits, Bits)>, Bits))
    requires
        is_arithmetic(d),
        0 < l@.len() == r@.len() < 0x1_0000,
    ensures
        is_scatter(d, l@, r@, max_points as nat, out.0@, out.1),
{
    reveal(is_scatter);
    let n: usize = l.len();
    let scale: Bits = divide_by(ONE, from_whole(n as u64));
    let corr: Bits = correlate_band(d, l, r, scale);
    let mut peak: Bits = 0;
    let mut i: usize = 0;
    while i < n
        invariant
            i <= n == l@.len() == r@.len(),
            peak == band_peak(l@, r@, scale, i as int),
        decreases n - i,
    {
        peak = larger(peak, multiply(larger(absolute(l[i].re), absolute(r[i].re)), scale));
        i = i + 1;
    }
    let gain: Bits = if less_than(SILENT_BAND, peak) {
        divide_by(SCOPE_REACH, peak)
    } else {
        0
    };
    let most: usize = if max_points == 0 {
        1
    } else {
        max_points
    };
    let stride: usize = n / most;
    let step: usize = if stride == 0 {
        1
    } else {
        stride
    };
    proof {
        vstd::arithmetic::div_mod::lemma_div_is_ordered_by_denominator(n as int, 1, most as int);
    }
    (scatter_of(l, r, scale, gain, step), corr)
}

/// The first frame of the block around a frame.
pub open spec fn block_around(center: nat, frames: nat) -> nat {
    probe_start(center as int, 0, 1, 0, CORR_FFT_SIZE as int, frames as int) as nat
}

/// `l` and `r` are what a band leaves of the first two channels from a frame on.
#[verifier::opaque]
pub open spec fn are_bands<T: Fn(Vec<Bits>) -> Vec<Bin>, V: Fn(Vec<Bin>) -> Vec<Bin>>(
    t: &T,
    v: &V,
    s: Seq<Bits>,
    ch: nat,
    start: nat,
    band: (int, int),
    l: Seq<Bin>,
    r: Seq<Bin>,
) -> bool {
    let n = CORR_FFT_SIZE as nat;
    &&& l.len() == n == r.len()
    &&& is_band_of(t, v, block(s, start, ch, 0, n), band, l)
    &&& is_band_of(t, v, block(s, start, ch, 1, n), band, r)
}

fn bands_of<T: Fn(Vec<Bits>) -> Vec<Bin>, V: Fn(Vec<Bin>) -> Vec<Bin>>(
    t: &T,
    v: &V,
    s: &Vec<Bits>,
    ch: usize,
    start: usize,
    band: (usize, usize),
) -> (y: (Vec<Bin>, Vec<Bin>))
    requires
        is_transform(t),
        is_inverse(v),
        ch >= 2,
        (start + CORR_FFT_SIZE) * ch <= s@.len(),
    ensures
        y.0@.len() == CORR_FFT_SIZE == y.1@.len(),
        are_bands(t, v, s@, ch as nat, start as nat, (band.0 as int, band.1 as int), y.0@, y.1@),
{
    reveal(are_bands);
    let l: Vec<Bin> = band_of(t, v, s, start, ch, 0, CORR_FFT_SIZE, band);
    let r: Vec<Bin> = band_of(t, v, s, start, ch, 1, CORR_FFT_SIZE, band);
    (l, r)
}

/// `out` is the scatter of one band around a frame, and its correlation. Mono
/// and short files have none.
pub open spec fn is_band_scatter<
    T: Fn(Vec<Bits>) -> Vec<Bin>,
    V: Fn(Vec<Bin>) -> Vec<Bin>,
    D: Fn(Operation, DoubleBits, DoubleBits) -> DoubleBits,
>(
    t: &T,
    v: &V,
    d: &D,
    s: Seq<Bits>,
    ch: nat,
    center: nat,
    rate: u32,
    lo_hz: Bits,
    hi_hz: Bits,
    max_points: nat,
    out: Option<(Vec<(Bits, Bits)>, Bits)>,
) -> bool {
    let n = CORR_FFT_SIZE as nat;
    if ch < 2 || rate == 0 || s.len() / ch < n {
        out is None
    } else {
        let start = block_around(center, s.len() / ch);
        let (a, b) = band_bins(lo_hz, hi_hz, rate, n / 2);
        &&& out is Some
        &&& exists|l: Seq<Bin>, r: Seq<Bin>| #[trigger]
            are_bands(t, v, s, ch, start, (a as int, b as int), l, r) && is_scatter(
                d,
                l,
                r,
                max_points,
                (out->0).0@,
                (out->0).1,
            )
    }
}

fn first_frame(len: usize, channels: usize, center: usize) -> (start: usize)
    requires
        channels > 0,
        CORR_FFT_SIZE <= len / channels,
    ensures
        start == block_around(center as nat, len as nat / channels as nat),
        (start + CORR_FFT_SIZE) * channels <= len,
{
    let frames: usize = len / channels;
    let start: usize = probe_window(center, 0, 1, 0, CORR_FFT_SIZE, frames);
    proof {
        vstd::arithmetic::div_mod::lemma_fundamental_div_mod(len as int, channels as int);
        vstd::arithmetic::div_mod::lemma_mod_bound(len as int, channels as int);
        assert((start + CORR_FFT_SIZE) * channels <= len) by (nonlinear_arith)
            requires
                start + CORR_FFT_SIZE <= frames,
                len >= channels * frames,
        ;
    }
    start
}

/// Does a band begin below half the rate? Only such a band has a scatter.
pub open spec fn begins_inside(lo_hz: Bits, hi_hz: Bits, rate: u32) -> bool {
    band_bins(lo_hz, hi_hz, rate, CORR_FFT_SIZE as nat / 2).0 < CORR_FFT_SIZE / 2
}

/// Does a band begin below half the rate?
pub fn can_scatter(lo_hz: Bits, hi_hz: Bits, rate: u32) -> (r: bool)
    ensures
        r == begins_inside(lo_hz, hi_hz, rate),
{
    let bins: usize = CORR_FFT_SIZE / 2;
    let nyquist: Bits = divide_by(from_whole(rate as u64), TWO);
    truncate(multiply(divide_by(lo_hz, nyquist), from_whole(bins as u64))) < bins as u64
}

/// The scatter of one band of frequencies around a frame, with at most about
/// `max_points` points, and the correlation of the band.
pub fn band_limited_gonio<
    T: Fn(Vec<Bits>) -> Vec<Bin>,
    V: Fn(Vec<Bin>) -> Vec<Bin>,
    D: Fn(Operation, DoubleBits, DoubleBits) -> DoubleBits,
>(
    t: &T,
    v: &V,
    d: &D,
    samples: &Vec<Bits>,
    channels: usize,
    center_frame: usize,
    sample_rate: u32,
    lo_hz: Bits,
    hi_hz: Bits,
    max_points: usize,
) -> (out: Option<(Vec<(Bits, Bits)>, Bits)>)
    requires
        is_transform(t),
        is_inverse(v),
        is_arithmetic(d),
        channels < 2 || sample_rate == 0 || samples@.len() / (channels as nat) < CORR_FFT_SIZE
            || begins_inside(lo_hz, hi_hz, sample_rate),
    ensures
        is_band_scatter(
            t,
            v,
            d,
            samples@,
            channels as nat,
            center_frame as nat,
            sample_rate,
            lo_hz,
            hi_hz,
            max_points as nat,
            out,
        ),
{
    if channels < 2 || sample_rate == 0 {
        return None;
    }
    let n: usize = CORR_FFT_SIZE;
    let frames: usize = samples.len() / channels;
    if frames < n {
        return None;
    }
    let start: usize = first_frame(samples.len(), channels, center_frame);
    let band: (usize, usize) = bins_of_band(lo_hz, hi_hz, sample_rate, n / 2);
    let (l, r): (Vec<Bin>, Vec<Bin>) = bands_of(t, v, samples, channels, start, band);
    Some(scope(d, &l, &r, max_points))
}

// ---- Laws -------------------------------------------------------------------

/// The scatter is that of the sound around the frame: where two files sound the same
/// around two frames, away from their ends, they scatter alike there.
pub proof fn law_scatter_moves_with_sound<
    T: Fn(Vec<Bits>) -> Vec<Bin>,
    V: Fn(Vec<Bin>) -> Vec<Bin>,
    D: Fn(Operation, DoubleBits, DoubleBits) -> DoubleBits,
>(
    t: &T,
    v: &V,
    d: &D,
    s: Seq<Bits>,
    ch: nat,
    center: nat,
    other: Seq<Bits>,
    there: nat,
    rate: u32,
    lo_hz: Bits,
    hi_hz: Bits,
    max_points: nat,
    out: Option<(Vec<(Bits, Bits)>, Bits)>,
)
    requires
        is_band_scatter(t, v, d, s, ch, center, rate, lo_hz, hi_hz, max_points, out),
        ch >= 2,
        2048 <= center <= s.len() / ch - 2048,
        2048 <= there <= other.len() / ch - 2048,
        forall|i: int, c: int|
            -2048 <= i < 2048 && 0 <= c < 2 ==> other[(there + i) * ch + c] == #[trigger] s[(center + i) * ch + c],
    ensures
        is_band_scatter(t, v, d, other, ch, there, rate, lo_hz, hi_hz, max_points, out),
{
    if rate != 0 {
        let n = CORR_FFT_SIZE as nat;
        let a = (center - n / 2) as nat;
        let b = (there - n / 2) as nat;
        assert(block_around(center, s.len() / ch) == a);
        assert(block_around(there, other.len() / ch) == b);
        let bins = band_bins(lo_hz, hi_hz, rate, n / 2);
        let band = (bins.0 as int, bins.1 as int);
        let (l, r) = choose|l: Seq<Bin>, r: Seq<Bin>| #[trigger]
            are_bands(t, v, s, ch, a, band, l, r) && is_scatter(d, l, r, max_points, (out->0).0@, (out->0).1);
        reveal(are_bands);
        lemma_block_moves(s, ch, center, a, other, there, b, 0);
        lemma_block_moves(s, ch, center, a, other, there, b, 1);
        assert(are_bands(t, v, other, ch, b, band, l, r));
    }
}

proof fn lemma_block_moves(s: Seq<Bits>, ch: nat, center: nat, a: nat, other: Seq<Bits>, there: nat, b: nat, c: nat)
    requires
        a == center - 2048,
        b == there - 2048,
        c < 2,
        forall|i: int, c: int|
            -2048 <= i < 2048 && 0 <= c < 2 ==> other[(there + i) * ch + c] == #[trigger] s[(center + i) * ch + c],
    ensures
        block(s, a, ch, c, 4096) == block(other, b, ch, c, 4096),
{
    assert forall|k: int| 0 <= k < 4096 implies #[trigger] block(s, a, ch, c, 4096)[k] == block(
        other,
        b,
        ch,
        c,
        4096,
    )[k] by {
        let i = k - 2048;
        assert(center + i == a + k && there + i == b + k);
        assert(other[(there + i) * ch + c] == s[(center + i) * ch + c]);
    }
    assert(block(s, a, ch, c, 4096) =~= block(other, b, ch, c, 4096));
}

/// The scatter looks at the sound around the frame, half of it before and half behind;
/// at the ends of the file it looks at what is there.
pub proof fn law_scatter_looks_around_frame(center: nat, frames: nat)
    requires
        4096 <= frames,
    ensures
        block_around(center, frames) + 4096 <= frames,
        2048 <= center <= frames - 2048 ==> block_around(center, frames) + 2048 == center,
        center < 2048 ==> block_around(center, frames) == 0,
        center > frames - 2048 ==> block_around(center, frames) + 4096 == frames,
{
}

/// The points of a scatter are those of the two signals a step apart: two equal signals
/// give points with equal coordinates, and the number of points is about what was asked.
pub proof fn law_scatter_of_equal_signals(l: Seq<Bin>, scale: Bits, gain: Bits, step: nat, j: int)
    requires
        step > 0,
        0 <= j < scatter(l, l, scale, gain, step).len(),
    ensures
        scatter(l, l, scale, gain, step)[j].0 == scatter(l, l, scale, gain, step)[j].1,
        j * step < l.len(),
{
    let count = (l.len() + step - 1) / step as int;
    vstd::arithmetic::div_mod::lemma_fundamental_div_mod(l.len() + step - 1, step as int);
    vstd::arithmetic::div_mod::lemma_mod_bound(l.len() + step - 1, step as int);
    assert(j * step < l.len()) by (nonlinear_arith)
        requires
            0 <= j <= count - 1,
            step * count <= l.len() + step - 1,
            step > 0,
    ;
}

/// The loudest value of a band reaches nine tenths of the scope, up to rounding; a silent
/// band shows nothing.
pub proof fn law_scatter_fills_scope(peak: Bits)
    requires
        is_finite(peak),
        value(peak) <= 0x10_0000 * one(),
    ensures
        value(peak) > value(SILENT_BAND) ==> is_near(
            value(scope_gain(peak)),
            9 * (one() * one()),
            10 * value(peak),
            3,
        ),
        value(peak) <= value(SILENT_BAND) ==> scope_gain(peak) == 0,
{
    if value(peak) > value(SILENT_BAND) {
        lemma_fine();
        lemma_one();
        let u = one();
        let w = value(peak);
        vstd::arithmetic::power2::lemma2_to64();
        vstd::arithmetic::power2::lemma_pow2_adds(24, 125);
        assert(unsigned(SCOPE_REACH) == SCOPE_REACH && !negative(SCOPE_REACH));
        assert(last_digit(SCOPE_REACH) == 125 && significand(SCOPE_REACH) == 0xe6_6666);
        let r = value(SCOPE_REACH);
        assert(r == 0xe6_6666 * fine());
        vstd::arithmetic::power2::lemma_pow2_adds(30, 119);
        vstd::arithmetic::power2::lemma_pow2_adds(23, 96);
        assert(unsigned(SILENT_BAND) == SILENT_BAND && !negative(SILENT_BAND));
        assert(last_digit(SILENT_BAND) == 96 && significand(SILENT_BAND) == 0x89_705f);
        assert(value(SILENT_BAND) >= 0x80_0000 * vstd::arithmetic::power2::pow2(96));
        assert(w * 0x4000_0000 >= u);
        vstd::arithmetic::power2::lemma_pow2_strictly_increases(149, 276);
        let x = vstd::arithmetic::power2::pow2(276) as int;
        assert(r * u >= w * 0x80_0000) by (nonlinear_arith)
            requires
                2 * r >= u,
                u >= 0x1_0000_0000_0000,
                w <= 0x10_0000 * u,
                w > 0,
        ;
        assert(r * u <= w * x) by (nonlinear_arith)
            requires
                r <= u,
                u * 0x4000_0000 <= x,
                u <= w * 0x4000_0000,
                w > 0,
                u > 0,
        ;
        lemma_near_quotient(SCOPE_REACH, peak);
        let q = value(scope_gain(peak));
        let f = fine();
        assert(is_near(q, r * u, w, 1));
        let a = q * w;
        let b = f * u;
        assert(r * u == 0xe6_6666 * b) by (nonlinear_arith)
            requires
                r == 0xe6_6666 * f,
                b == f * u,
        ;
        assert(u * u == 0x100_0000 * b) by (nonlinear_arith)
            requires
                u == f * 0x100_0000,
                b == f * u,
        ;
        assert(b > 0) by (nonlinear_arith)
            requires
                b == f * u,
                f > 0,
                u > 0,
        ;
        assert(q * (10 * w) == 10 * a) by (nonlinear_arith)
            requires
                a == q * w,
        ;
    }
}

} // verus!
