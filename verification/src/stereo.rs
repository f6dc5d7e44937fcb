//! What correlation says of two channels: that they are one where they are equal, that
//! they are opposed where they are opposite, and that what is shown belongs to the place
//! in the file that was asked for.

use vstd::prelude::*;
use vstd::arithmetic::div_mod::*;
use vstd::arithmetic::power2::*;
use crate::accuracy::{is_near, one, lemma_exact_quotient, lemma_one, lemma_times};
use crate::arith::lemma_ratio_pattern;
use crate::correlation::{CorrTimeline, CrossSpectra, NO_ENERGY, are_energies, are_spectra, block_start, correlation_of, is_band, is_band_correlation, is_cross, layout_of, smoothed, smoothing, summed, timeline_window};
use crate::dsp::lemma_rails;
use crate::envelope::channel_sum;
use crate::fft::{CORR_AVG_FRAMES, CORR_FFT_SIZE};
use crate::functions::{Function, gives};
use crate::scalar::{fdiv, fmul, negated, lemma_negated};
use crate::single::{Bits, MINUS_ONE, ONE, is_finite, less, magnitude, negative, unsigned, value, lemma_magnitude_order, lemma_zero};
use crate::spectra::{Bin, is_hann, is_spectrum, windowed};
use crate::timeline::{is_timeline, sums_of, window_sums};
use crate::double::DoubleBits;
use crate::wide::Operation;

verus! {

// ---- One frequency ----------------------------------------------------------

/// A number divided by itself.
proof fn lemma_by_itself(x: Bits)
    requires
        is_finite(x),
        value(x) > 0,
    ensures
        fdiv(x, x) == ONE,
        fdiv(negated(x), x) == MINUS_ONE,
{
    lemma_one();
    lemma_rails();
    lemma_zero(x);
    lemma_negated(x);
    let u = one();
    assert(value(x) * u == (1 * pow2(149)) * value(x)) by (nonlinear_arith)
        requires
            u == pow2(149),
    ;
    lemma_exact_quotient(x, x, 1, 149);
    assert(unsigned(ONE) == ONE && unsigned(MINUS_ONE) == ONE);
    let q = fdiv(x, x);
    lemma_magnitude_order(q, ONE);
    lemma_zero(q);
    let num = magnitude(x) * pow2(149);
    lemma_ratio_pattern(num, magnitude(x), true);
    lemma_ratio_pattern(num, magnitude(x), false);
    let r = fdiv(negated(x), x);
    lemma_zero(negated(x));
    assert(magnitude(negated(x)) == magnitude(x));
    lemma_magnitude_order(r, q);
}

/// Where both channels have the same power and their cross power is that power, the
/// correlation is one; where it is the opposite, minus one. Without energy it is zero.
pub proof fn law_correlation_of_equal_and_opposite(x: Bits)
    requires
        is_finite(x),
        !negative(x),
    ensures
        less(NO_ENERGY, x) ==> correlation_of(x, x) == ONE && correlation_of(negated(x), x) == MINUS_ONE,
        !less(NO_ENERGY, x) ==> correlation_of(x, x) == 0 && correlation_of(negated(x), x) == 0,
{
    if less(NO_ENERGY, x) {
        assert(value(x) > 0) by {
            lemma_zero(NO_ENERGY);
            assert(unsigned(NO_ENERGY) == NO_ENERGY);
        }
        lemma_by_itself(x);
        lemma_rails();
        crate::columns::lemma_full_scale();
    }
}

/// A transform that gives one result only for a block.
pub open spec fn is_one_transform<T: Fn(Vec<Bits>) -> Vec<Bin>>(t: &T) -> bool {
    forall|s: Seq<Bits>, y: Seq<Bin>, z: Seq<Bin>|
        #![trigger is_spectrum(t, s, y), is_spectrum(t, s, z)]
        is_spectrum(t, s, y) && is_spectrum(t, s, z) ==> y == z
}

/// Are the first two channels of a file equal?
pub open spec fn channels_agree(samples: Seq<Bits>, ch: nat) -> bool {
    forall|f: int| 0 <= f < samples.len() / ch ==> samples[(#[trigger] (f * ch)) as int + 1] == samples[f * ch]
}

proof fn lemma_same_sums(l: Seq<Vec<Bin>>, r: Seq<Vec<Bin>>, bins: nat, k: int)
    requires
        0 <= k <= l.len(),
        l.len() == r.len(),
        forall|i: int| 0 <= i < l.len() ==> (#[trigger] l[i])@ == r[i]@,
    ensures
        summed(l, l, bins, k) == summed(r, r, bins, k),
        summed(l, l, bins, k) == summed(l, r, bins, k),
    decreases k,
{
    if k > 0 {
        lemma_same_sums(l, r, bins, k - 1);
        assert(l[k - 1]@ == r[k - 1]@);
    }
}

/// The sums of two equal channels.
proof fn lemma_equal_channels<T: Fn(Vec<Bits>) -> Vec<Bin>>(
    t: &T,
    samples: Seq<Bits>,
    ch: nat,
    center: nat,
    window: Seq<Bits>,
    s: CrossSpectra,
)
    requires
        is_cross(t, samples, ch, center, window, &s),
        is_one_transform(t),
        channels_agree(samples, ch),
        ch >= 2,
        window.len() == CORR_FFT_SIZE,
        CORR_FFT_SIZE <= samples.len() / ch,
    ensures
        s.left@ == s.right@,
        s.left@ == s.both@,
{
    let bins = window.len() / 2;
    let n = CORR_AVG_FRAMES as nat;
    let (l, r) = choose|l: Seq<Vec<Bin>>, r: Seq<Vec<Bin>>|
        #![trigger are_spectra(t, samples, ch, 0, center, window, n, l), are_spectra(t, samples, ch, 1, center, window, n, r)]
        {
            &&& are_spectra(t, samples, ch, 0, center, window, n, l)
            &&& are_spectra(t, samples, ch, 1, center, window, n, r)
            &&& s.left@ == summed(l, l, bins, n as int)
            &&& s.right@ == summed(r, r, bins, n as int)
            &&& s.both@ == summed(l, r, bins, n as int)
        };
    assert forall|k: int| 0 <= k < n implies (#[trigger] l[k])@ == r[k]@ by {
        let start = block_start(center, k, samples.len() / ch);
        let a = windowed(samples, start, ch, 0, window);
        let b = windowed(samples, start, ch, 1, window);
        crate::fft::law_probe_inside(
            center as int,
            k,
            CORR_AVG_FRAMES as int,
            CORR_FFT_SIZE as int / 2,
            CORR_FFT_SIZE as int,
            (samples.len() / ch) as int,
        );
        assert forall|j: int| 0 <= j < window.len() implies #[trigger] a[j] == b[j] by {
            let f = start + j;
            assert(samples[(f * ch) as int + 1] == samples[f * ch]);
        }
        assert(a =~= b);
        assert(is_spectrum(t, a, l[k]@) && is_spectrum(t, b, r[k]@));
    }
    lemma_same_sums(l, r, bins, n as int);
}

/// Two equal channels correlate fully: the sums of their powers and of their cross power
/// are the same, and every frequency that has energy shows one.
pub proof fn law_equal_channels_show_one<M: Fn(Function, Bits) -> Bits, T: Fn(Vec<Bits>) -> Vec<Bin>>(
    m: &M,
    t: &T,
    samples: Seq<Bits>,
    ch: nat,
    center: nat,
    out: Seq<(Bits, Bits)>,
    i: int,
)
    requires
        is_band_correlation(m, t, samples, ch, center, out),
        is_one_transform(t),
        channels_agree(samples, ch),
        ch >= 2,
        CORR_FFT_SIZE <= samples.len() / ch,
        // the root of a square is what was squared
        forall|x: Bits, y: Bits| #[trigger] gives(m, Function::SquareRoot, fmul(x, x), y) && less(NO_ENERGY, y) ==> y == x,
        1 <= i < out.len(),
    ensures
        exists|window: Seq<Bits>, s: CrossSpectra, lo: Bits, hi: Bits, e: Seq<Bits>|
            #![trigger is_cross(t, samples, ch, center, window, &s), are_energies(m, &s, lo, hi, e)]
            {
                &&& is_cross(t, samples, ch, center, window, &s)
                &&& are_energies(m, &s, lo, hi, e)
                &&& s.left@ == s.right@
                &&& s.left@ == s.both@
                &&& is_finite(e[i]) && less(NO_ENERGY, e[i]) ==> out[i].0 == ONE
                &&& !less(NO_ENERGY, e[i]) ==> out[i].0 == 0
            },
{
    let (window, s, lo, hi, e) = choose|window: Seq<Bits>, s: CrossSpectra, lo: Bits, hi: Bits, e: Seq<Bits>|
        #![trigger is_cross(t, samples, ch, center, window, &s), are_energies(m, &s, lo, hi, e)]
        {
            &&& is_hann(m, CORR_FFT_SIZE as nat, window)
            &&& is_cross(t, samples, ch, center, window, &s)
            &&& gives(m, Function::TwoTo, crate::correlation::SMOOTH_DOWN, lo)
            &&& gives(m, Function::TwoTo, crate::correlation::SMOOTH_UP, hi)
            &&& are_energies(m, &s, lo, hi, e)
            &&& out.len() == e.len()
            &&& out.len() > 0 ==> out[0] == (0u32, 0u32)
            &&& forall|i: int| 1 <= i < out.len() ==> is_band(m, &s, lo, hi, e, i, #[trigger] out[i])
        };
    lemma_equal_channels(t, samples, ch, center, window, s);
    assert(is_band(m, &s, lo, hi, e, i, out[i]));
    assert(gives(m, Function::SquareRoot, smoothed(&s, i as nat, lo, hi).1, e[i]));
    let (a, b) = smoothing(i as nat, lo, hi, s.left@.len());
    let x = channel_sum(s.left@, a as int, b - a);
    assert(smoothed(&s, i as nat, lo, hi) == (x, fmul(x, x)));
    if is_finite(e[i]) && less(NO_ENERGY, e[i]) {
        assert(e[i] == x);
        assert(value(x) > 0) by {
            lemma_zero(NO_ENERGY);
            assert(unsigned(NO_ENERGY) == NO_ENERGY);
        }
        lemma_zero(x);
        law_correlation_of_equal_and_opposite(x);
    }
    assert(is_cross(t, samples, ch, center, window, &s) && are_energies(m, &s, lo, hi, e));
}

// ---- The place in the file --------------------------------------------------

/// Correlation is that of the sound around the frame: where two files sound the same
/// around two frames, away from their ends, they correlate alike there.
pub proof fn law_correlation_moves_with_sound<M: Fn(Function, Bits) -> Bits, T: Fn(Vec<Bits>) -> Vec<Bin>>(
    m: &M,
    t: &T,
    samples: Seq<Bits>,
    ch: nat,
    center: nat,
    other: Seq<Bits>,
    there: nat,
    out: Seq<(Bits, Bits)>,
)
    requires
        is_band_correlation(m, t, samples, ch, center, out),
        ch >= 2,
        12288 <= center <= samples.len() / ch - 14336,
        12288 <= there <= other.len() / ch - 14336,
        forall|i: int, c: int|
            -12288 <= i < 14336 && 0 <= c < 2 ==> other[(there + i) * ch + c] == #[trigger] samples[(center + i) * ch + c],
    ensures
        is_band_correlation(m, t, other, ch, there, out),
{
    let (window, s, lo, hi, e) = choose|window: Seq<Bits>, s: CrossSpectra, lo: Bits, hi: Bits, e: Seq<Bits>|
        #![trigger is_cross(t, samples, ch, center, window, &s), are_energies(m, &s, lo, hi, e)]
        {
            &&& is_hann(m, CORR_FFT_SIZE as nat, window)
            &&& is_cross(t, samples, ch, center, window, &s)
            &&& gives(m, Function::TwoTo, crate::correlation::SMOOTH_DOWN, lo)
            &&& gives(m, Function::TwoTo, crate::correlation::SMOOTH_UP, hi)
            &&& are_energies(m, &s, lo, hi, e)
            &&& out.len() == e.len()
            &&& out.len() > 0 ==> out[0] == (0u32, 0u32)
            &&& forall|i: int| 1 <= i < out.len() ==> is_band(m, &s, lo, hi, e, i, #[trigger] out[i])
        };
    lemma_cross_moves(t, samples, ch, center, other, there, window, s);
    assert(is_cross(t, other, ch, there, window, &s) && are_energies(m, &s, lo, hi, e));
}

proof fn lemma_cross_moves<T: Fn(Vec<Bits>) -> Vec<Bin>>(
    t: &T,
    samples: Seq<Bits>,
    ch: nat,
    center: nat,
    other: Seq<Bits>,
    there: nat,
    window: Seq<Bits>,
    s: CrossSpectra,
)
    requires
        is_cross(t, samples, ch, center, window, &s),
        window.len() == CORR_FFT_SIZE,
        ch >= 2,
        12288 <= center <= samples.len() / ch - 14336,
        12288 <= there <= other.len() / ch - 14336,
        forall|i: int, c: int|
            -12288 <= i < 14336 && 0 <= c < 2 ==> other[(there + i) * ch + c] == #[trigger] samples[(center + i) * ch + c],
    ensures
        is_cross(t, other, ch, there, window, &s),
{
    let bins = window.len() / 2;
    let n = CORR_AVG_FRAMES as nat;
    let (l, r) = choose|l: Seq<Vec<Bin>>, r: Seq<Vec<Bin>>|
        #![trigger are_spectra(t, samples, ch, 0, center, window, n, l), are_spectra(t, samples, ch, 1, center, window, n, r)]
        {
            &&& are_spectra(t, samples, ch, 0, center, window, n, l)
            &&& are_spectra(t, samples, ch, 1, center, window, n, r)
            &&& s.left@ == summed(l, l, bins, n as int)
            &&& s.right@ == summed(r, r, bins, n as int)
            &&& s.both@ == summed(l, r, bins, n as int)
        };
    lemma_spectra_move(t, samples, ch, 0, center, other, there, window, l);
    lemma_spectra_move(t, samples, ch, 1, center, other, there, window, r);
}

proof fn lemma_spectra_move<T: Fn(Vec<Bits>) -> Vec<Bin>>(
    t: &T,
    samples: Seq<Bits>,
    ch: nat,
    channel: nat,
    center: nat,
    other: Seq<Bits>,
    there: nat,
    window: Seq<Bits>,
    z: Seq<Vec<Bin>>,
)
    requires
        are_spectra(t, samples, ch, channel, center, window, 12, z),
        window.len() == 4096,
        ch >= 2,
        channel < 2,
        12288 <= center <= samples.len() / ch - 14336,
        12288 <= there <= other.len() / ch - 14336,
        forall|i: int, c: int|
            -12288 <= i < 14336 && 0 <= c < 2 ==> other[(there + i) * ch + c] == #[trigger] samples[(center + i) * ch + c],
    ensures
        are_spectra(t, other, ch, channel, there, window, 12, z),
{
    assert forall|k: int| 0 <= k < 12 implies is_spectrum(
        t,
        windowed(other, block_start(there, k, other.len() / ch), ch, channel, window),
        (#[trigger] z[k])@,
    ) by {
        let a = block_start(center, k, samples.len() / ch);
        let b = block_start(there, k, other.len() / ch);
        assert(is_spectrum(t, windowed(samples, a, ch, channel, window), z[k]@));
        let x = windowed(samples, a, ch, channel, window);
        let y = windowed(other, b, ch, channel, window);
        assert(a == center + (k - 5) * 2048 - 2048 && b == there + (k - 5) * 2048 - 2048);
        assert forall|i: int| 0 <= i < window.len() implies #[trigger] x[i] == y[i] by {
            let j = (k - 5) * 2048 - 2048 + i;
            assert(other[(there + j) * ch + channel as int] == samples[(center + j) * ch + channel as int]);
        }
        assert(x =~= y);
    }
}


// ---- The timeline -----------------------------------------------------------

/// The points of a correlation timeline are where the seconds between them say: point
/// `p` is the correlation of the frames from `p` hops on, a window long; a hop is half a
/// window; and the points reach from the start of the file to its last whole window.
pub proof fn law_timeline_moments<D: Fn(Operation, DoubleBits, DoubleBits) -> DoubleBits>(
    d: &D,
    s: Seq<Bits>,
    ch: nat,
    rate: u32,
    out: CorrTimeline,
)
    requires
        is_timeline(d, s, ch, rate, out),
        out.points@.len() > 0,
        s.len() <= usize::MAX,
        s.len() <= 0x8_0000_0000_0000,
    ensures
        is_finite(out.hop_secs),
        exists|hop: nat, window: nat|
            {
                &&& #[trigger] is_half(hop, window)
                &&& window >= 256
                &&& is_near(value(out.hop_secs), hop * one(), rate as int, 8)
                &&& (out.points@.len() - 1) * hop + window <= s.len() / ch < out.points@.len() * hop + window
                &&& forall|p: int|
                    0 <= p < out.points@.len() ==> crate::timeline::is_window_correlation(
                        d,
                        #[trigger] sums_of(d, s, ch, (p * hop) as nat, window),
                        crate::wide::result(d, Operation::FromWhole, window as u64, 0),
                        out.points@[p].0,
                    )
            },
{
    let plan = layout_of(s.len(), ch, rate)->0;
    let frames = s.len() / ch;
    let w = timeline_window(rate);
    let h = w / 2;
    let count = (frames - w) / h as int + 1;
    lemma_fundamental_div_mod(frames - w, h as int);
    lemma_mod_bound(frames - w, h as int);
    lemma_div_pos_is_pos(frames - w, h as int);
    let q = (frames - w) / h as int;
    assert(h * q == q * h && (q + 1) * h == q * h + h) by (nonlinear_arith);
    assert(frames <= s.len()) by (nonlinear_arith)
        requires
            frames == s.len() / ch,
            ch >= 2,
    ;
    assert(q <= frames) by (nonlinear_arith)
        requires
            h * q <= frames - w,
            h >= 1,
            w >= 0,
            q >= 0,
    ;
    assert(plan.window == w && plan.hop == h && plan.count == count);
    crate::accuracy::lemma_whole_ratio(h, rate as nat);
    assert forall|p: int| 0 <= p < out.points@.len() implies crate::timeline::is_window_correlation(
        d,
        #[trigger] sums_of(d, s, ch, (p * h) as nat, w),
        crate::wide::result(d, Operation::FromWhole, w as u64, 0),
        out.points@[p].0,
    ) by {
        assert(window_sums(d, s, ch, plan, p) == sums_of(d, s, ch, (p * h) as nat, w));
        let point = out.points@[p];
    }
    assert(is_half(h, w));
}

/// Is a number half of another, without the fraction?
pub open spec fn is_half(half: nat, whole: nat) -> bool {
    2 * half <= whole <= 2 * half + 1
}

/// What the timeline shows at a time is the point that begins there or less than a hop
/// before, up to rounding.
pub proof fn law_timeline_lookup(out: CorrTimeline, secs: Bits)
    requires
        is_finite(out.hop_secs),
        is_finite(secs),
        value(out.hop_secs) > 0,
        0 <= value(secs) <= value(out.hop_secs) * 0x4000_0000,
        out.at_time(secs) is Some,
    ensures
        exists|k: int|
            {
                &&& 0 <= k < out.points@.len()
                &&& out.at_time(secs) == Some(#[trigger] out.points@[k])
                &&& (k * value(out.hop_secs)) * 0x100_0000 <= value(secs) * 0x100_0001 + value(out.hop_secs)
                &&& value(secs) * 0xff_ffff <= ((k + 1) * value(out.hop_secs)) * 0x100_0000 + value(out.hop_secs)
            },
{
    lemma_times(secs, out.hop_secs);
    let k = crate::scalar::truncated(fdiv(secs, out.hop_secs));
    assert(k == crate::single::at_most_index(k));
    assert(out.at_time(secs) == Some(out.points@[k as int]));
}

/// Where both channels of a file are equal, their sums over a window are.
pub proof fn law_equal_channels_sum_alike<D: Fn(Operation, DoubleBits, DoubleBits) -> DoubleBits>(
    d: &D,
    s: Seq<Bits>,
    ch: nat,
    lo: nat,
    n: nat,
)
    requires
        ch >= 2,
        lo + n <= s.len() / ch,
        channels_agree(s, ch),
    ensures
        ({
            let t = sums_of(d, s, ch, lo, n);
            t.l == t.r && t.ll == t.rr && t.ll == t.lr
        }),
    decreases n,
{
    if n > 0 {
        law_equal_channels_sum_alike(d, s, ch, lo, (n - 1) as nat);
        let f = lo + n - 1;
        assert(s[(f * ch) as int + 1] == s[f * ch]);
        assert((lo + n - 1) * ch == f * ch);
    }
}

} // verus!
