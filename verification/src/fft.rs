//! Spectra and the spectrogram: their layout, contrast and colours.
//!
//! Here stands which samples the transforms look at, how their levels are stored
//! in one byte each, and how a byte becomes a colour.

use vstd::prelude::*;
use vstd::string::*;
use vstd::arithmetic::power2::*;
use vstd::arithmetic::div_mod::*;
use vstd::arithmetic::mul::*;
use crate::arith::{number, from_whole, lemma_ratio_pattern, lemma_pattern_exists};
use crate::rounding::{nearest, bit_len, round_to, lemma_ratio_between, lemma_nearest_monotone, lemma_nearest_scaled, lemma_nearest_bounds, lemma_bit_len_unique};
use crate::scalar::{is_infinite, fadd, fsub, fmul, fdiv, fmax, truncated, raised, parts, lemma_shrinks};
use crate::scalar::{add_to, subtract, multiply, divide_by, larger, truncate, ceiling, nearest_parts, lemma_zero_one};
use crate::single::{TWO, THOUSAND, MILLIONTH};
use crate::single::{Bits, INFINITY, ONE, unsigned, negative, magnitude, significand, last_digit, is_nan, is_finite, at_most, is_at_most, clamped, clamp, at_most_index};
use crate::single::{lemma_magnitude_order, lemma_zero};
use crate::text::{decimal, decimal_text};

verus! {

/// Window of the spectrogram unless the user sets another. A longer window
/// tells frequencies apart better and moments worse.
pub const FFT_SIZE: usize = 2048;

/// The windows of the spectrogram overlap by seven eighths.
pub const HOP_DIV: usize = 8;

/// Window of the spectrum line.
pub const SPECTRUM_FFT_SIZE: usize = 16384;

/// Windows that are averaged into the spectrum line.
pub const SPECTRUM_AVG_FRAMES: usize = 4;

/// Window of the correlation curve.
pub const CORR_FFT_SIZE: usize = 4096;

/// Windows that are averaged into the correlation curve.
pub const CORR_AVG_FRAMES: usize = 12;

/// A tenth of a second.
pub const TENTH: Bits = 0x3dcc_cccd;
/// The lowest level of the spectrogram, in decibels, negated.
pub const LEVELS: Bits = 0x42f0_0000;
/// Codes per decibel.
pub const CODES_PER_DB: Bits = 0x4008_0000;
pub const FULL_CODE: Bits = 0x437f_0000;

/// The windows that the user can choose from.
pub fn fft_sizes() -> (list: [usize; 4])
    ensures
        list@ == seq![1024usize, 2048, 4096, 8192],
{
    let list: [usize; 4] = [1024, 2048, 4096, 8192];
    list
}

// ---- Labels -----------------------------------------------------------------

/// A number rounded to a whole one.
pub open spec fn whole_number(b: Bits) -> Seq<char> {
    if is_infinite(b) {
        seq!['i', 'n', 'f']
    } else {
        decimal(parts(b, 1))
    }
}

/// The sample rate in force where a file has none.
pub open spec fn rate_or_usual(rate: u32) -> u32 {
    if rate == 0 {
        48000
    } else {
        rate
    }
}

/// A window in milliseconds.
pub open spec fn window_ms(n: usize, rate: u32) -> Bits {
    fmul(fdiv(number(n as nat), number(rate_or_usual(rate) as nat)), THOUSAND)
}

/// The distance of the frequencies that a window tells apart.
pub open spec fn window_hz(n: usize, rate: u32) -> Bits {
    fdiv(number(rate_or_usual(rate) as nat), number(n as nat))
}

fn whole_text(b: Bits) -> (s: String)
    requires
        unsigned(b) < 0x6c80_0000 || unsigned(b) == INFINITY,
    ensures
        s@ == whole_number(b),
{
    if b % 0x8000_0000 == INFINITY {
        let mut s: String = String::new();
        s.push('i');
        s.push('n');
        s.push('f');
        assert(s@ =~= seq!['i', 'n', 'f']);
        return s;
    }
    decimal_text(nearest_parts(b, 1))
}

/// A window with what it resolves in time and in frequency.
pub fn fft_size_label(n: usize, sample_rate: u32) -> (s: String)
    ensures
        s@ == decimal(n as nat) + "  ("@ + whole_number(window_ms(n, sample_rate)) + " ms / "@
            + whole_number(window_hz(n, sample_rate)) + " Hz)"@,
{
    let rate: u32 = if sample_rate == 0 {
        48000
    } else {
        sample_rate
    };
    proof {
        lemma_label_range(n as nat, rate as nat);
    }
    let count: Bits = from_whole(n as u64);
    let per_second: Bits = from_whole(rate as u64);
    let ms: Bits = multiply(divide_by(count, per_second), THOUSAND);
    let hz: Bits = divide_by(per_second, count);
    let mut s: String = decimal_text(n as u128);
    s.append("  (");
    s.append(whole_text(ms).as_str());
    s.append(" ms / ");
    s.append(whole_text(hz).as_str());
    s.append(" Hz)");
    s
}

/// A power of two is a number of its own.
pub proof fn lemma_power(k: nat)
    requires
        k < 277,
    ensures
        nearest(pow2(k), 24) == pow2(k),
        pow2(k) < pow2(277),
{
    lemma2_to64();
    lemma_bit_len_unique(1, 1);
    lemma_nearest_bounds(1, 24);
    lemma_nearest_scaled(1, k, 24);
    assert(1 * pow2(k) == pow2(k));
    lemma_pow2_strictly_increases(k, 277);
}

/// Whole numbers that fit a machine word are numbers below 2^65, and at least
/// one unless they are zero.
pub proof fn lemma_word(n: nat)
    requires
        n <= u64::MAX,
    ensures
        is_finite(number(n)),
        !negative(number(n)),
        magnitude(number(n)) == nearest(n, 24) * pow2(149),
        magnitude(number(n)) <= pow2(213),
        n >= 1 ==> magnitude(number(n)) >= pow2(149),
        n == 0 ==> magnitude(number(n)) == 0,
{
    lemma2_to64();
    lemma2_to64_rest();
    lemma_pow2_pos(149);
    lemma_pow2_adds(64, 149);
    lemma_nearest_scaled(n, 149, 24);
    lemma_pattern_exists(n * pow2(149), false);
    lemma_power(64);
    lemma_nearest_monotone(n, pow2(64), 24);
    let w = nearest(n, 24);
    assert(w * pow2(149) <= pow2(64) * pow2(149)) by (nonlinear_arith)
        requires
            w <= pow2(64),
    ;
    lemma_power(213);
    if n >= 1 {
        lemma_power(0);
        lemma_nearest_monotone(1, n, 24);
        assert(w * pow2(149) >= 1 * pow2(149)) by (nonlinear_arith)
            requires
                w >= 1,
        ;
    } else {
        assert(bit_len(0) == 0);
        lemma_nearest_bounds(0, 24);
        assert(0 * pow2(149) == 0);
    }
}

/// A magnitude of at most 2^k has a pattern of at most that of 2^k.
proof fn lemma_small_pattern(b: Bits)
    requires
        is_finite(b),
        magnitude(b) <= pow2(230),
    ensures
        unsigned(b) < 0x6c80_0000,
{
    lemma2_to64();
    let high: Bits = 0x6c80_0000;
    assert(unsigned(high) == high);
    assert(last_digit(high) == 216 && significand(high) == 0x80_0000) by {
        assert(unsigned(high) / 0x80_0000 == 217);
    }
    lemma_pow2_adds(23, 216);
    lemma_pow2_strictly_increases(230, 239);
    lemma_magnitude_order(b, high);
}

proof fn lemma_label_range(n: nat, rate: nat)
    requires
        n <= u64::MAX,
        1 <= rate <= u32::MAX,
    ensures
        unsigned(fmul(fdiv(number(n), number(rate)), THOUSAND)) < 0x6c80_0000,
        unsigned(fdiv(number(rate), number(n))) < 0x6c80_0000 || unsigned(
            fdiv(number(rate), number(n)),
        ) == INFINITY,
{
    lemma_word(n);
    lemma_word(rate);
    let count = number(n);
    let per = number(rate);
    lemma_shrinks(count, per);
    let q = fdiv(count, per);
    lemma2_to64();
    lemma_pow2_pos(149);
    // at most 2^64 seconds are at most 2^74 milliseconds
    assert(unsigned(THOUSAND) == THOUSAND);
    assert(magnitude(THOUSAND) <= pow2(159)) by {
        assert(last_digit(THOUSAND) == 135 && significand(THOUSAND) <= 0x100_0000) by {
            assert(unsigned(THOUSAND) / 0x80_0000 == 136);
        }
        lemma_pow2_adds(24, 135);
        lemma_pow2_pos(135);
        assert(magnitude(THOUSAND) <= 0x100_0000 * pow2(135)) by (nonlinear_arith)
            requires
                magnitude(THOUSAND) == significand(THOUSAND) * pow2(135),
                significand(THOUSAND) <= 0x100_0000,
        ;
    }
    let num = magnitude(q) * magnitude(THOUSAND);
    lemma_pow2_adds(213, 159);
    lemma_pow2_adds(223, 149);
    assert(num <= pow2(223) * pow2(149)) by {
        assert(num <= pow2(213) * pow2(159)) by (nonlinear_arith)
            requires
                num == magnitude(q) * magnitude(THOUSAND),
                magnitude(q) <= pow2(213),
                magnitude(THOUSAND) <= pow2(159),
        ;
    }
    lemma_ratio_between(num, pow2(149), pow2(223), 24);
    lemma_power(223);
    lemma_ratio_pattern(num, pow2(149), negative(q) != negative(THOUSAND));
    lemma_pow2_strictly_increases(223, 230);
    lemma_small_pattern(fmul(q, THOUSAND));
    // a rate divided by a whole number is no larger
    if n >= 1 {
        lemma_shrinks(per, count);
        lemma_pow2_strictly_increases(213, 230);
        lemma_small_pattern(fdiv(per, count));
    } else {
        lemma_zero(count);
        lemma_zero(per);
    }
}

// ---- The spectrogram --------------------------------------------------------

/// The levels of a file over time and frequency, one byte each.
pub struct Spectrogram {
    /// Slice after slice, each from low to high.
    pub data: Vec<u8>,
    pub freq_bins: usize,
    /// Samples from one slice to the next.
    pub hop: usize,
    pub fft_size: usize,
    pub sample_rate: u32,
    /// The codes that are shown black and white.
    pub floor_code: u8,
    pub ceil_code: u8,
}

/// The window in force: the wanted one if it can be chosen, else the usual one.
pub open spec fn size_or_usual(n: usize) -> usize {
    if n == 1024 || n == 2048 || n == 4096 || n == 8192 {
        n
    } else {
        FFT_SIZE
    }
}

/// The window in force.
pub fn chosen_size(n: usize) -> (r: usize)
    ensures
        r == size_or_usual(n),
{
    if n == 1024 || n == 2048 || n == 4096 || n == 8192 {
        n
    } else {
        FFT_SIZE
    }
}

/// The number of slices of a file.
pub open spec fn slices_of(len: nat, size: nat) -> nat {
    if len < size {
        0
    } else {
        ((len - size) / (size as int / HOP_DIV as int) + 1) as nat
    }
}

/// The number of slices of a file.
pub fn slice_count(len: usize, size: usize) -> (r: usize)
    requires
        size >= HOP_DIV,
    ensures
        r == slices_of(len as nat, size as nat),
{
    if len < size {
        return 0;
    }
    let hop: usize = size / HOP_DIV;
    let n: usize = (len - size) / hop;
    assert(n <= len - size) by (nonlinear_arith)
        requires
            n == (len - size) / hop as int,
            hop >= 1,
            len >= size,
    ;
    n + 1
}

/// The code of a level in decibels.
pub open spec fn level_code(db: Bits) -> u8 {
    truncated(clamped(fmul(fadd(db, LEVELS), CODES_PER_DB), 0, FULL_CODE)) as u8
}

/// The code of a level in decibels.
pub fn db_code(db: Bits) -> (r: u8)
    ensures
        r == level_code(db),
{
    proof {
        lemma_codes();
        lemma_code_fits(fmul(fadd(db, LEVELS), CODES_PER_DB));
    }
    let c: Bits = clamp(multiply(add_to(db, LEVELS), CODES_PER_DB), 0, FULL_CODE);
    truncate(c) as u8
}

pub proof fn lemma_codes()
    ensures
        at_most(0, FULL_CODE),
        magnitude(FULL_CODE) == 255 * pow2(149),
{
    lemma_magnitude_order(0, FULL_CODE);
    lemma2_to64();
    assert(unsigned(FULL_CODE) == FULL_CODE);
    assert(last_digit(FULL_CODE) == 133 && significand(FULL_CODE) == 0xff_0000) by {
        assert(unsigned(FULL_CODE) / 0x80_0000 == 134);
    }
    lemma_pow2_adds(16, 133);
    assert(0xff_0000 * pow2(133) == 255 * (0x1_0000 * pow2(133))) by (nonlinear_arith);
}

/// A code cut at its bounds fits a byte.
pub proof fn lemma_code_fits(b: Bits)
    ensures
        truncated(clamped(b, 0, FULL_CODE)) <= 255,
{
    lemma_codes();
    let c = clamped(b, 0, FULL_CODE);
    lemma_pow2_pos(149);
    if !is_nan(c) && !negative(c) {
        assert(magnitude(c) <= 255 * pow2(149)) by {
            lemma_zero(0);
        }
        lemma_div_is_ordered(magnitude(c) as int, (255 * pow2(149)) as int, pow2(149) as int);
        lemma_div_by_multiple(255, pow2(149) as int);
    }
}

impl Spectrogram {
    pub open spec fn slices(&self) -> nat {
        if self.freq_bins == 0 {
            0
        } else {
            self.data@.len() / self.freq_bins as nat
        }
    }

    /// Number of slices.
    pub fn time_bins(&self) -> (n: usize)
        ensures
            n == self.slices(),
    {
        if self.freq_bins == 0 {
            0
        } else {
            self.data.len() / self.freq_bins
        }
    }

    pub open spec fn row_at(&self, t: int) -> Seq<u8> {
        self.data@.subrange(t * self.freq_bins, (t + 1) * self.freq_bins)
    }

    /// One slice, from low to high.
    pub fn row(&self, t: usize) -> (r: &[u8])
        requires
            t < self.slices(),
        ensures
            r@ == self.row_at(t as int),
            r@.len() == self.freq_bins,
    {
        proof {
            lemma_row_inside(t as nat, self.freq_bins as nat, self.data@.len());
            assert(self.data.len() <= usize::MAX);
        }
        let from: usize = t * self.freq_bins;
        vstd::slice::slice_subrange(self.data.as_slice(), from, from + self.freq_bins)
    }

    /// A spectrogram without slices.
    pub fn empty(sample_rate: u32) -> (s: Spectrogram)
        ensures
            s.data@.len() == 0,
            s.freq_bins == 0,
            s.hop == 256,
            s.fft_size == FFT_SIZE,
            s.sample_rate == sample_rate,
            s.floor_code == 0,
            s.ceil_code == 255,
    {
        Spectrogram {
            data: Vec::new(),
            freq_bins: 0,
            hop: FFT_SIZE / HOP_DIV,
            fft_size: FFT_SIZE,
            sample_rate,
            floor_code: 0,
            ceil_code: 255,
        }
    }

    /// A spectrogram from its codes, with the contrast that suits them.
    pub fn with_codes(data: Vec<u8>, fft_size: usize, sample_rate: u32) -> (s: Spectrogram)
        ensures
            s.data@ == data@,
            s.freq_bins == fft_size / 2,
            s.hop == fft_size / HOP_DIV,
            s.fft_size == fft_size,
            s.sample_rate == sample_rate,
            (s.floor_code, s.ceil_code) == contrast(data@),
    {
        let (floor_code, ceil_code): (u8, u8) = fit_contrast(&data);
        Spectrogram {
            data,
            freq_bins: fft_size / 2,
            hop: fft_size / HOP_DIV,
            fft_size,
            sample_rate,
            floor_code,
            ceil_code,
        }
    }

    /// Where a code stands between black and white.
    pub open spec fn brightness(&self, code: u8) -> Bits {
        let lo = number(self.floor_code as nat);
        let hi = fmax(number(self.ceil_code as nat), fadd(lo, ONE));
        clamped(fdiv(fsub(number(code as nat), lo), fsub(hi, lo)), 0, ONE)
    }

    /// The colour of a code.
    pub fn code_to_rgba(&self, code: u8) -> (c: Shade)
        ensures
            c == magma_at(self.brightness(code)),
    {
        proof {
            lemma_zero_one();
        }
        let lo: Bits = from_whole(self.floor_code as u64);
        let hi: Bits = larger(from_whole(self.ceil_code as u64), add_to(lo, ONE));
        let t: Bits = clamp(
            divide_by(subtract(from_whole(code as u64), lo), subtract(hi, lo)),
            0,
            ONE,
        );
        magma(t)
    }
}

proof fn lemma_row_inside(t: nat, bins: nat, len: nat)
    requires
        bins > 0,
        t < len / bins,
    ensures
        0 <= t * bins,
        t * bins + bins <= len,
        (t + 1) * bins == t * bins + bins,
{
    lemma_fundamental_div_mod(len as int, bins as int);
    lemma_mod_bound(len as int, bins as int);
    assert((t + 1) * bins == t * bins + bins) by (nonlinear_arith);
    assert((t + 1) * bins <= bins * (len / bins)) by (nonlinear_arith)
        requires
            t + 1 <= len / bins,
            bins > 0,
    ;
}

// ---- Contrast ---------------------------------------------------------------

/// How many of the codes are at most `c`.
pub open spec fn up_to(data: Seq<u8>, c: int) -> nat
    decreases data.len(),
{
    if data.len() == 0 {
        0
    } else {
        up_to(data.drop_last(), c) + if data.last() <= c {
            1nat
        } else {
            0nat
        }
    }
}

/// Seven tenths and 999 thousandths as double-precision numbers, in units of
/// 2^-53.
pub const SEVEN_TENTHS: u64 = 6305039478318694;
pub const NEARLY_ALL: u64 = 8998192055486251;

/// A share of a count, computed in double precision and cut to a whole number.
pub open spec fn share(total: nat, fraction: u64) -> nat {
    nearest(nearest(total, 53) * fraction as nat, 53) / pow2(53)
}

/// The least code that at least that many codes do not exceed.
pub open spec fn is_percentile(data: Seq<u8>, target: nat, c: u8) -> bool {
    &&& up_to(data, c as int) >= target || c == 255
    &&& forall|k: int| 0 <= k < c ==> up_to(data, k) < target
}

pub open spec fn percentile(data: Seq<u8>, target: nat) -> u8 {
    choose|c: u8| is_percentile(data, target, c)
}

/// The codes shown black and white: most of the codes are the floor, so black
/// lies high among them; a few outliers do not set the scale.
pub open spec fn contrast(data: Seq<u8>) -> (u8, u8) {
    if data.len() == 0 {
        (0, 255)
    } else {
        let lo = percentile(data, share(data.len(), SEVEN_TENTHS));
        let hi = percentile(data, share(data.len(), NEARLY_ALL));
        let least_hi = if lo > 235 {
            255u8
        } else {
            (lo + 20) as u8
        };
        (
            lo,
            if hi < least_hi {
                least_hi
            } else {
                hi
            },
        )
    }
}

/// Counts how many codes are at most each value.
fn histogram(data: &Vec<u8>) -> (h: Vec<usize>)
    ensures
        h@.len() == 256,
        forall|c: int| 0 <= c < 256 ==> #[trigger] h@[c] == exactly(data@, c),
{
    let mut h: Vec<usize> = Vec::new();
    while h.len() < 256
        invariant
            h@.len() <= 256,
            forall|c: int| 0 <= c < h@.len() ==> #[trigger] h@[c] == 0,
        decreases 256 - h@.len(),
    {
        h.push(0);
    }
    let mut i: usize = 0;
    assert(data@.take(0) =~= Seq::empty());
    let count: usize = data.len();
    while i < count
        invariant
            h@.len() == 256,
            i <= count == data@.len(),
            forall|c: int| 0 <= c < 256 ==> #[trigger] h@[c] == exactly(data@.take(i as int), c),
        decreases data@.len() - i,
    {
        let v: usize = data[i] as usize;
        proof {
            assert(data@.take(i + 1).drop_last() =~= data@.take(i as int));
            assert(data@.take(i + 1).last() == data@[i as int]);
            lemma_exactly(data@.take(i as int), v as int);
        }
        let n: usize = h[v];
        let ghost before = h@;
        h.set(v, n + 1);
        proof {
            assert forall|c: int| 0 <= c < 256 implies #[trigger] h@[c] == exactly(data@.take(i + 1), c) by {
                assert(before[c] == exactly(data@.take(i as int), c));
            }
        }
        i = i + 1;
    }
    assert(data@.take(data@.len() as int) =~= data@);
    h
}

/// How many of the codes are `c`.
pub open spec fn exactly(data: Seq<u8>, c: int) -> nat
    decreases data.len(),
{
    if data.len() == 0 {
        0
    } else {
        exactly(data.drop_last(), c) + if data.last() == c {
            1nat
        } else {
            0nat
        }
    }
}

proof fn lemma_exactly(data: Seq<u8>, c: int)
    ensures
        exactly(data, c) <= data.len(),
    decreases data.len(),
{
    if data.len() > 0 {
        lemma_exactly(data.drop_last(), c);
    }
}

proof fn lemma_up_to(data: Seq<u8>, c: int)
    ensures
        up_to(data, c) == up_to(data, c - 1) + exactly(data, c),
        up_to(data, -1) == 0,
        up_to(data, c) <= data.len(),
    decreases data.len(),
{
    if data.len() > 0 {
        lemma_up_to(data.drop_last(), c);
    }
}

proof fn lemma_percentile_unique(data: Seq<u8>, target: nat, a: u8, b: u8)
    requires
        is_percentile(data, target, a),
        is_percentile(data, target, b),
    ensures
        a == b,
{
    if a < b {
        assert(up_to(data, a as int) < target);
    }
    if b < a {
        assert(up_to(data, b as int) < target);
    }
}

fn find_percentile(h: &Vec<usize>, target: u128, Ghost(data): Ghost<Seq<u8>>) -> (c: u8)
    requires
        h@.len() == 256,
        data.len() <= usize::MAX,
        forall|k: int| 0 <= k < 256 ==> #[trigger] h@[k] == exactly(data, k),
    ensures
        c == percentile(data, target as nat),
{
    let mut acc: usize = 0;
    let mut i: usize = 0;
    proof {
        lemma_up_to(data, 0);
    }
    while i < 256
        invariant
            h@.len() == 256,
            data.len() <= usize::MAX,
            forall|k: int| 0 <= k < 256 ==> #[trigger] h@[k] == exactly(data, k),
            i <= 256,
            acc == up_to(data, i - 1),
            forall|k: int| 0 <= k < i ==> up_to(data, k) < target,
        decreases 256 - i,
    {
        proof {
            lemma_up_to(data, i as int);
        }
        acc = acc + h[i];
        if acc as u128 >= target {
            proof {
                assert(is_percentile(data, target as nat, i as u8));
                lemma_percentile_unique(data, target as nat, i as u8, percentile(data, target as nat));
            }
            return i as u8;
        }
        i = i + 1;
    }
    proof {
        assert(is_percentile(data, target as nat, 255));
        lemma_percentile_unique(data, target as nat, 255, percentile(data, target as nat));
    }
    255
}

fn share_of(total: usize, fraction: u64) -> (r: u128)
    requires
        fraction <= 0x20_0000_0000_0000,
    ensures
        r == share(total as nat, fraction),
{
    let (q, k): (u64, u32) = round_to(total as u128, 53);
    proof {
        lemma2_to64();
        lemma2_to64_rest();
        lemma_double_count(total as nat);
    }
    let whole: u128 = q as u128 * wide(k);
    proof {
        assert(whole <= 0x1_0000_0000_0000_0000);
        assert(whole * fraction <= 0x1_0000_0000_0000_0000 * 0x20_0000_0000_0000) by (nonlinear_arith)
            requires
                0 <= whole <= 0x1_0000_0000_0000_0000,
                0 <= fraction <= 0x20_0000_0000_0000,
        ;
    }
    let exact: u128 = whole * fraction as u128;
    let (p, j): (u64, u32) = round_to(exact, 53);
    proof {
        lemma_double_product(exact as nat);
    }
    let product: u128 = p as u128 * wide(j);
    product / 0x20_0000_0000_0000
}

fn wide(k: u32) -> (r: u128)
    requires
        k <= 66,
    ensures
        r == pow2(k as nat),
{
    crate::rounding::wide_power_of_two(k)
}

/// A count in double precision stays a small number.
proof fn lemma_double_count(n: nat)
    requires
        n <= u64::MAX,
    ensures
        nearest(n, 53) <= 0x1_0000_0000_0000_0000,
        bit_len(n) <= 64,
{
    lemma2_to64();
    lemma2_to64_rest();
    lemma_bit_len_unique(1, 1);
    lemma_nearest_bounds(1, 53);
    lemma_nearest_scaled(1, 64, 53);
    assert(1 * pow2(64) == pow2(64));
    lemma_nearest_monotone(n, pow2(64), 53);
    lemma_bits(n, 64);
}

proof fn lemma_double_product(n: nat)
    requires
        n <= 0x1_0000_0000_0000_0000 * 0x20_0000_0000_0000,
    ensures
        nearest(n, 53) <= 0x1_0000_0000_0000_0000 * 0x20_0000_0000_0000,
        bit_len(n) <= 118,
{
    lemma2_to64();
    lemma2_to64_rest();
    lemma_pow2_adds(64, 53);
    lemma_pow2_adds(117, 1);
    lemma_bit_len_unique(1, 1);
    lemma_nearest_bounds(1, 53);
    lemma_nearest_scaled(1, 117, 53);
    assert(1 * pow2(117) == pow2(117));
    lemma_nearest_monotone(n, pow2(117), 53);
    lemma_bits(n, 118);
}

proof fn lemma_bits(n: nat, k: nat)
    requires
        n < pow2(k),
    ensures
        bit_len(n) <= k,
{
    crate::rounding::lemma_bit_len(n);
    if bit_len(n) > k {
        if bit_len(n) - 1 > k {
            lemma_pow2_strictly_increases(k, (bit_len(n) - 1) as nat);
        }
    }
}

/// Chooses the codes shown black and white.
pub fn fit_contrast(data: &Vec<u8>) -> (r: (u8, u8))
    ensures
        r == contrast(data@),
{
    if data.len() == 0 {
        return (0, 255);
    }
    let h: Vec<usize> = histogram(data);
    let n: usize = data.len();
    let lo: u8 = find_percentile(&h, share_of(n, SEVEN_TENTHS), Ghost(data@));
    let hi: u8 = find_percentile(&h, share_of(n, NEARLY_ALL), Ghost(data@));
    let least_hi: u8 = if lo > 235 {
        255
    } else {
        lo + 20
    };
    if hi < least_hi {
        (lo, least_hi)
    } else {
        (lo, hi)
    }
}

// ---- Colours ----------------------------------------------------------------

/// A colour, from zero to one.
#[derive(Clone, Copy, PartialEq, Eq, Debug, Structural)]
pub struct Shade {
    pub r: Bits,
    pub g: Bits,
    pub b: Bits,
}

/// A colour at a place of a ramp.
#[derive(Clone, Copy, PartialEq, Eq, Debug, Structural)]
pub struct Stop {
    pub at: Bits,
    pub shade: Shade,
}

/// The colour between two stops.
pub open spec fn between(a: Stop, b: Stop, f: Bits) -> Shade {
    Shade {
        r: fadd(a.shade.r, fmul(fsub(b.shade.r, a.shade.r), f)),
        g: fadd(a.shade.g, fmul(fsub(b.shade.g, a.shade.g), f)),
        b: fadd(a.shade.b, fmul(fsub(b.shade.b, a.shade.b), f)),
    }
}

pub fn mix(a: Stop, b: Stop, f: Bits) -> (c: Shade)
    ensures
        c == between(a, b, f),
{
    Shade {
        r: add_to(a.shade.r, multiply(subtract(b.shade.r, a.shade.r), f)),
        g: add_to(a.shade.g, multiply(subtract(b.shade.g, a.shade.g), f)),
        b: add_to(a.shade.b, multiply(subtract(b.shade.b, a.shade.b), f)),
    }
}

/// The stretch of a rising ramp that holds `t`, counted from stretch `i`; the
/// first where none does.
pub open spec fn stretch_up(stops: Seq<Stop>, t: Bits, i: nat) -> nat
    decreases stops.len() - i,
{
    if i + 1 >= stops.len() {
        0
    } else if at_most(stops[i as int].at, t) && at_most(t, stops[i as int + 1].at) {
        i
    } else {
        stretch_up(stops, t, i + 1)
    }
}

/// The ramp of the spectrogram: near black, purple, magenta, orange, cream.
pub open spec fn magma_stops() -> Seq<Stop> {
    seq![
        Stop { at: 0, shade: Shade { r: 0x3a83_126f, g: 0, b: 0x3c65_6042 } },
        Stop { at: 0x3e0f_5c29, shade: Shade { r: 0x3d9f_be77, g: 0x3d30_20c5, b: 0x3e52_f1aa } },
        Stop { at: 0x3e94_7ae1, shade: Shade { r: 0x3e6d_9168, g: 0x3d75_c28f, b: 0x3ee0_4189 } },
        Stop { at: 0x3edc_28f6, shade: Shade { r: 0x3ecc_cccd, g: 0x3db0_20c5, b: 0x3f00_0000 } },
        Stop { at: 0x3f11_eb85, shade: Shade { r: 0x3f16_872b, g: 0x3e18_9375, b: 0x3ef2_b021 } },
        Stop { at: 0x3f35_c28f, shade: Shade { r: 0x3f5d_f3b6, g: 0x3e93_74bc, b: 0x3ec0_8312 } },
        Stop { at: 0x3f5c_28f6, shade: Shade { r: 0x3f7c_ed91, g: 0x3f0d_9168, b: 0x3eb2_b021 } },
        Stop { at: 0x3f80_0000, shade: Shade { r: 0x3f7c_ac08, g: 0x3f68_b439, b: 0x3f3f_be77 } },
    ]
}

/// A colour of the spectrogram's ramp.
pub open spec fn magma_at(t: Bits) -> Shade {
    let u = clamped(t, 0, ONE);
    let i = stretch_up(magma_stops(), u, 0) as int;
    let a = magma_stops()[i];
    let b = magma_stops()[i + 1];
    between(a, b, clamped(fdiv(fsub(u, a.at), fmax(fsub(b.at, a.at), MILLIONTH)), 0, ONE))
}

/// A colour of the spectrogram's ramp.
pub fn magma(t: Bits) -> (c: Shade)
    ensures
        c == magma_at(t),
{
    let stops: [Stop; 8] = [
        Stop { at: 0, shade: Shade { r: 0x3a83_126f, g: 0, b: 0x3c65_6042 } },
        Stop { at: 0x3e0f_5c29, shade: Shade { r: 0x3d9f_be77, g: 0x3d30_20c5, b: 0x3e52_f1aa } },
        Stop { at: 0x3e94_7ae1, shade: Shade { r: 0x3e6d_9168, g: 0x3d75_c28f, b: 0x3ee0_4189 } },
        Stop { at: 0x3edc_28f6, shade: Shade { r: 0x3ecc_cccd, g: 0x3db0_20c5, b: 0x3f00_0000 } },
        Stop { at: 0x3f11_eb85, shade: Shade { r: 0x3f16_872b, g: 0x3e18_9375, b: 0x3ef2_b021 } },
        Stop { at: 0x3f35_c28f, shade: Shade { r: 0x3f5d_f3b6, g: 0x3e93_74bc, b: 0x3ec0_8312 } },
        Stop { at: 0x3f5c_28f6, shade: Shade { r: 0x3f7c_ed91, g: 0x3f0d_9168, b: 0x3eb2_b021 } },
        Stop { at: 0x3f80_0000, shade: Shade { r: 0x3f7c_ac08, g: 0x3f68_b439, b: 0x3f3f_be77 } },
    ];
    proof {
        lemma_zero_one();
        assert(stops@ =~= magma_stops());
    }
    let u: Bits = clamp(t, 0, ONE);
    let mut found: usize = 0;
    let mut i: usize = 0;
    let mut done: bool = false;
    while i < 7 && !done
        invariant
            stops@ == magma_stops(),
            i <= 7,
            found < 7,
            done ==> found == stretch_up(magma_stops(), u, 0),
            !done ==> found == 0 && stretch_up(magma_stops(), u, 0) == stretch_up(
                magma_stops(),
                u,
                i as nat,
            ),
        decreases 7 - i,
    {
        if is_at_most(stops[i].at, u) && is_at_most(u, stops[i + 1].at) {
            found = i;
            done = true;
        }
        i = i + 1;
    }
    let a: Stop = stops[found];
    let b: Stop = stops[found + 1];
    let span: Bits = larger(subtract(b.at, a.at), MILLIONTH);
    mix(a, b, clamp(divide_by(subtract(u, a.at), span), 0, ONE))
}

// ---- Where a spectrum looks -------------------------------------------------

/// The first sample of window `k` of `count` around a probe, held inside the
/// file.
pub open spec fn probe_start(center: int, k: int, count: int, spacing: int, size: int, len: int) -> int {
    let start = center + (k - (count - 1) / 2) * spacing - size / 2;
    if start < 0 {
        0
    } else if start > len - size {
        len - size
    } else {
        start
    }
}

/// The first sample of window `k` of `count` around a probe.
pub fn probe_window(center: usize, k: usize, count: usize, spacing: usize, size: usize, len: usize) -> (r:
    usize)
    requires
        size <= len,
        k < count <= 64,
        spacing <= 0x10_0000,
    ensures
        r == probe_start(
            center as int,
            k as int,
            count as int,
            spacing as int,
            size as int,
            len as int,
        ),
        r + size <= len,
{
    let middle: i128 = (count as i128 - 1) / 2;
    let steps: i128 = k as i128 - middle;
    assert(-64 <= steps <= 64);
    assert(-0x400_0000 <= steps * spacing <= 0x400_0000) by (nonlinear_arith)
        requires
            -64 <= steps <= 64,
            0 <= spacing <= 0x10_0000,
    ;
    let start: i128 = center as i128 + steps * spacing as i128 - (size / 2) as i128;
    let last: i128 = len as i128 - size as i128;
    if start < 0 {
        0
    } else if start > last {
        last as usize
    } else {
        start as usize
    }
}

// ---- Bands ------------------------------------------------------------------

/// The bins of a band of frequencies, from the first on up to the second.
pub open spec fn band_bins(lo_hz: Bits, hi_hz: Bits, rate: u32, bins: nat) -> (nat, nat) {
    let nyquist = fdiv(number(rate as nat), TWO);
    let a = at_most_index(truncated(fmul(fdiv(lo_hz, nyquist), number(bins))));
    let b = at_most_index(raised(fmul(fdiv(hi_hz, nyquist), number(bins))));
    (
        a,
        if b < a + 1 {
            a + 1
        } else if b > bins {
            bins
        } else {
            b
        },
    )
}

/// The bins of a band of frequencies. The band begins below half the rate.
pub fn bins_of_band(lo_hz: Bits, hi_hz: Bits, rate: u32, bins: usize) -> (r: (usize, usize))
    requires
        band_bins(lo_hz, hi_hz, rate, bins as nat).0 < bins,
    ensures
        (r.0 as nat, r.1 as nat) == band_bins(lo_hz, hi_hz, rate, bins as nat),
        r.0 < r.1 <= bins,
{
    let nyquist: Bits = divide_by(from_whole(rate as u64), TWO);
    let n: Bits = from_whole(bins as u64);
    let a: usize = index_of(truncate(multiply(divide_by(lo_hz, nyquist), n)));
    let b: usize = index_of(ceiling(multiply(divide_by(hi_hz, nyquist), n)));
    if b < a + 1 {
        (a, a + 1)
    } else if b > bins {
        (a, bins)
    } else {
        (a, b)
    }
}

fn index_of(n: u64) -> (r: usize)
    ensures
        r == at_most_index(n as nat),
{
    if n > usize::MAX as u64 {
        usize::MAX
    } else {
        n as usize
    }
}

/// Is bin `k` of a transform of `n` samples inside the band? The upper half
/// mirrors the lower.
pub open spec fn in_band(k: int, n: int, band: (int, int)) -> bool {
    let mirror = if k <= n / 2 {
        k
    } else {
        n - k
    };
    band.0 <= mirror < band.1
}

/// Is bin `k` of a transform of `n` samples inside the band?
pub fn keeps_bin(k: usize, n: usize, band: (usize, usize)) -> (r: bool)
    requires
        k < n,
    ensures
        r == in_band(k as int, n as int, (band.0 as int, band.1 as int)),
{
    let mirror: usize = if k <= n / 2 {
        k
    } else {
        n - k
    };
    band.0 <= mirror && mirror < band.1
}

// ---- Laws -------------------------------------------------------------------

/// The order of the codes does not matter for the contrast: what holds the same
/// codes is shown alike.
pub proof fn law_contrast_ignores_order(a: Seq<u8>, b: Seq<u8>)
    requires
        a.to_multiset() == b.to_multiset(),
    ensures
        contrast(a) == contrast(b),
{
    a.to_multiset_ensures();
    b.to_multiset_ensures();
    assert(a.len() == b.len());
    assert forall|c: int| up_to(a, c) == up_to(b, c) by {
        lemma_up_to_ignores_order(a, b, c);
    }
    lemma_same_percentile(a, b, share(a.len(), SEVEN_TENTHS));
    lemma_same_percentile(a, b, share(a.len(), NEARLY_ALL));
}

proof fn lemma_up_to_ignores_order(a: Seq<u8>, b: Seq<u8>, c: int)
    requires
        a.to_multiset() == b.to_multiset(),
    ensures
        up_to(a, c) == up_to(b, c),
    decreases a.len(),
{
    a.to_multiset_ensures();
    b.to_multiset_ensures();
    assert(a.len() == b.len());
    if a.len() > 0 {
        let v = a.last();
        assert(a[a.len() - 1] == v);
        assert(a.to_multiset().count(v) > 0);
        assert(b.to_multiset().count(v) > 0);
        assert(b.contains(v));
        let j = choose|j: int| 0 <= j < b.len() && b[j] == v;
        let d = a.drop_last();
        let e = b.remove(j);
        assert(d =~= a.remove(a.len() - 1));
        assert(d.to_multiset() =~= a.to_multiset().remove(v));
        assert(e.to_multiset() =~= b.to_multiset().remove(v));
        lemma_up_to_ignores_order(d, e, c);
        lemma_up_to_removed(b, j, c);
    }
}

proof fn lemma_up_to_removed(s: Seq<u8>, j: int, c: int)
    requires
        0 <= j < s.len(),
    ensures
        up_to(s, c) == up_to(s.remove(j), c) + (if s[j] <= c {
            1nat
        } else {
            0nat
        }),
    decreases s.len(),
{
    let r = s.remove(j);
    if j == s.len() - 1 {
        assert(r =~= s.drop_last());
    } else {
        let d = s.drop_last();
        lemma_up_to_removed(d, j, c);
        assert(r.drop_last() =~= d.remove(j));
        assert(r.last() == s.last());
    }
}

proof fn lemma_same_percentile(a: Seq<u8>, b: Seq<u8>, target: nat)
    requires
        forall|c: int| up_to(a, c) == up_to(b, c),
    ensures
        percentile(a, target) == percentile(b, target),
{
    lemma_percentile_exists(a, target);
    lemma_percentile_exists(b, target);
    let p = percentile(a, target);
    assert(is_percentile(b, target, p));
    lemma_percentile_unique(b, target, p, percentile(b, target));
}

/// There is always a least code that enough codes do not exceed.
proof fn lemma_percentile_exists(data: Seq<u8>, target: nat)
    ensures
        is_percentile(data, target, percentile(data, target)),
{
    let c = lemma_first_reaching(data, target, 0);
    assert(is_percentile(data, target, c));
}

proof fn lemma_first_reaching(data: Seq<u8>, target: nat, from: u8) -> (c: u8)
    requires
        forall|k: int| 0 <= k < from ==> up_to(data, k) < target,
    ensures
        is_percentile(data, target, c),
    decreases 255 - from,
{
    if from == 255 || up_to(data, from as int) >= target {
        from
    } else {
        lemma_first_reaching(data, target, (from + 1) as u8)
    }
}

/// White is shown at least twenty codes above black, as far as there are codes.
pub proof fn law_contrast_spreads(data: Seq<u8>)
    ensures
        ({
            let (lo, hi) = contrast(data);
            lo <= hi && (hi >= lo + 20 || hi == 255)
        }),
{
}

/// A band is kept or dropped together with its mirror image, so that the
/// filtered signal stays real.
pub proof fn law_band_mirrors(k: int, n: int, band: (int, int))
    requires
        0 < k < n,
        n % 2 == 0,
    ensures
        in_band(k, n, band) == in_band(n - k, n, band),
{
}

/// The windows around a probe lie inside the file.
pub proof fn law_probe_inside(center: int, k: int, count: int, spacing: int, size: int, len: int)
    requires
        0 <= size <= len,
    ensures
        0 <= probe_start(center, k, count, spacing, size, len) <= len - size,
{
}

} // verus!
