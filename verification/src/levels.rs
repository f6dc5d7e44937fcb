//! What levels, codes and colours stand for: decibels, the codes of a spectrogram, and
//! where its slices lie in the file.

use vstd::prelude::*;
use vstd::arithmetic::div_mod::*;
use vstd::arithmetic::power2::*;
use crate::accuracy::{one, lemma_one};
use crate::arith::{abs, lemma_ratio_pattern};
use crate::curves::{grain, lemma_divided, lemma_product, lemma_sum_error, lemma_units};
use crate::dsp::{NO_LEVEL, TWENTY, is_amplitude, is_level};
use crate::fft::{CODES_PER_DB, FULL_CODE, LEVELS, Spectrogram, level_code, slices_of, lemma_codes};
use crate::functions::{Function, gives};
use crate::rounding::{nearest_ratio, lemma_ratio_error};
use crate::scalar::{fadd, fdiv, fmul};
use crate::single::{Bits, MILLIONTH, clamped, is_finite, is_nan, last_digit, magnitude, negative, significand, unsigned, value, lemma_zero};
use crate::spectra::{Bin, is_hann, is_row, is_spectrogram};

verus! {

// ---- Decibels ---------------------------------------------------------------

proof fn lemma_twenty()
    ensures
        is_finite(TWENTY),
        value(TWENTY) == 20 * one(),
{
    lemma_one();
    lemma2_to64();
    lemma_pow2_adds(19, 130);
    assert(unsigned(TWENTY) == TWENTY && last_digit(TWENTY) == 130 && significand(TWENTY) == 0xa0_0000);
    let e = pow2(130) as int;
    assert(0xa0_0000 * e == 20 * (0x8_0000 * e)) by (nonlinear_arith);
}

/// Twenty decibels are a factor of ten: the amplitude of a level is ten to the twentieth
/// part of it, up to rounding.
pub proof fn law_amplitude_of_level<M: Fn(Function, Bits) -> Bits>(m: &M, db: Bits, amp: Bits)
    requires
        is_amplitude(m, db, amp),
        is_finite(db),
    ensures
        exists|x: Bits|
            {
                &&& #[trigger] gives(m, Function::TenTo, x, amp)
                &&& is_finite(x)
                &&& abs(20 * value(x) - value(db)) * 0x100_0000 <= magnitude(db) + 20 * 0x100_0000
                &&& magnitude(x) > 0 ==> negative(x) == negative(db)
            },
{
    lemma_one();
    lemma_twenty();
    lemma2_to64();
    lemma_zero(TWENTY);
    let u = pow2(149);
    let x = fdiv(db, TWENTY);
    let w = magnitude(db);
    let num = w * u;
    let den = magnitude(TWENTY);
    assert(den == 20 * u);
    lemma_ratio_error(num, den, 24);
    lemma_ratio_pattern(num, den, negative(db));
    let r = nearest_ratio(num, den, 24);
    let d: int = 0x100_0000;
    assert(r * den * d == ((20 * r) * d) * u && num * d + num + den * d == (w * d + w + 20 * d) * u) by (nonlinear_arith)
        requires
            num == w * u,
            den == 20 * u,
    ;
    assert(num * d == (w * d) * u && r * den * d + num + den * d == ((20 * r) * d + w + 20 * d) * u) by (nonlinear_arith)
        requires
            num == w * u,
            den == 20 * u,
    ;
    assert((20 * r) * d <= w * d + w + 20 * d) by (nonlinear_arith)
        requires
            ((20 * r) * d) * u <= (w * d + w + 20 * d) * u,
            u > 0,
    ;
    assert(w * d <= (20 * r) * d + w + 20 * d) by (nonlinear_arith)
        requires
            (w * d) * u <= ((20 * r) * d + w + 20 * d) * u,
            u > 0,
    ;
    assert(r < pow2(277)) by {
        crate::arith::lemma_infinity();
        crate::single::lemma_magnitude_order(db, crate::single::INFINITY);
        assert(unsigned(crate::single::INFINITY) == crate::single::INFINITY);
    }
    assert(gives(m, Function::TenTo, x, amp));
}

/// The level of an amplitude is twenty times its logarithm to base ten, up to rounding;
/// at a millionth and below it is the lowest one, minus 120 decibels.
pub proof fn law_level_of_amplitude<M: Fn(Function, Bits) -> Bits>(m: &M, amp: Bits, db: Bits)
    requires
        is_level(m, amp, db),
        !is_nan(amp),
    ensures
        value(amp) <= value(MILLIONTH) ==> value(db) == -120 * one(),
        value(amp) > value(MILLIONTH) ==> exists|log: Bits|
            {
                &&& #[trigger] gives(m, Function::Log10, amp, log)
                &&& is_finite(log) && magnitude(log) <= 40 * one() ==> is_finite(db) && abs(value(db) - 20 * value(log))
                    * 0x100_0000 <= 20 * magnitude(log) + 0x100_0000
            },
{
    lemma_one();
    lemma_twenty();
    lemma2_to64();
    assert(!is_nan(MILLIONTH)) by {
        assert(unsigned(MILLIONTH) == MILLIONTH);
    }
    if value(amp) <= value(MILLIONTH) {
        lemma_pow2_adds(17, 132);
        assert(unsigned(NO_LEVEL) == 0x42f0_0000 && last_digit(NO_LEVEL) == 132 && significand(NO_LEVEL) == 0xf0_0000) by {
            assert(unsigned(NO_LEVEL) / 0x80_0000 == 133);
        }
        let e = pow2(132) as int;
        assert(0xf0_0000 * e == 120 * (0x2_0000 * e)) by (nonlinear_arith);
    } else {
        let log = choose|log: Bits| #[trigger] gives(m, Function::Log10, amp, log) && db == fmul(TWENTY, log);
        if is_finite(log) && magnitude(log) <= 40 * one() {
            let u = pow2(149);
            let w = magnitude(log);
            let num = magnitude(TWENTY) * w;
            assert(num == (20 * w) * u) by (nonlinear_arith)
                requires
                    num == magnitude(TWENTY) * w,
                    magnitude(TWENTY) == 20 * u,
            ;
            lemma_ratio_error(num, u, 24);
            lemma_ratio_pattern(num, u, negative(log));
            let r = nearest_ratio(num, u, 24);
            let d: int = 0x100_0000;
            let v = 20 * w;
            assert(r * u * d == (r * d) * u && num * d + num + u * d == (v * d + v + d) * u) by (nonlinear_arith)
                requires
                    num == v * u,
            ;
            assert(num * d == (v * d) * u && r * u * d + num + u * d == (r * d + v + d) * u) by (nonlinear_arith)
                requires
                    num == v * u,
            ;
            assert(r * d <= v * d + v + d) by (nonlinear_arith)
                requires
                    (r * d) * u <= (v * d + v + d) * u,
                    u > 0,
            ;
            assert(v * d <= r * d + v + d) by (nonlinear_arith)
                requires
                    (v * d) * u <= (r * d + v + d) * u,
                    u > 0,
            ;
            assert(r < pow2(277));
        }
    }
}

// ---- Codes ------------------------------------------------------------------

proof fn lemma_code_constants()
    ensures
        is_finite(LEVELS) && value(LEVELS) == 120 * one(),
        is_finite(CODES_PER_DB) && 8 * value(CODES_PER_DB) == 17 * one(),
        is_finite(FULL_CODE) && value(FULL_CODE) == 255 * one(),
{
    lemma_one();
    lemma_codes();
    lemma2_to64();
    lemma_pow2_adds(17, 132);
    lemma_pow2_adds(22, 127);
    assert(unsigned(LEVELS) == LEVELS && last_digit(LEVELS) == 132 && significand(LEVELS) == 0xf0_0000) by {
        assert(unsigned(LEVELS) / 0x80_0000 == 133);
    }
    let e = pow2(132) as int;
    assert(0xf0_0000 * e == 120 * (0x2_0000 * e)) by (nonlinear_arith);
    assert(unsigned(CODES_PER_DB) == CODES_PER_DB && last_digit(CODES_PER_DB) == 127 && significand(CODES_PER_DB)
        == 0x88_0000) by {
        assert(unsigned(CODES_PER_DB) / 0x80_0000 == 128);
    }
    let f = pow2(127) as int;
    assert(8 * (0x88_0000 * f) == 17 * (0x40_0000 * f)) by (nonlinear_arith);
    assert(unsigned(FULL_CODE) == FULL_CODE);
}

/// The codes of a spectrogram spread evenly over 120 decibels: the lowest level has the
/// code 0, full scale has 255, and a code stands for eight seventeenths of a decibel, up
/// to rounding. A louder level never has a lower code.
pub proof fn law_codes_spread_evenly(db: Bits)
    requires
        is_finite(db),
        -(200 * one()) <= value(db) <= 200 * one(),
    ensures
        ({
            let c = level_code(db);
            let v = value(db);
            &&& v <= -120 * one() ==> c == 0
            &&& v >= 0 ==> c == 255
            &&& -120 * one() <= v <= 0 ==> {
                &&& 512 * (8 * (c * one())) <= 512 * (17 * (v + 120 * one())) + one()
                &&& 512 * (17 * (v + 120 * one())) <= 512 * (8 * ((c + 1) * one())) + one()
            }
        }),
{
    lemma_one();
    lemma_units();
    lemma_code_constants();
    lemma_zero(0);
    let u = one();
    let g = grain();
    let v = value(db);
    lemma_sum_error(db, LEVELS, 512);
    let a = fadd(db, LEVELS);
    let x = value(a);
    assert(-(513 * g) <= x - (v + 120 * u) <= 513 * g);
    let c = value(CODES_PER_DB);
    assert(-(1024 * (u * u)) <= x * c <= 1024 * (u * u)) by (nonlinear_arith)
        requires
            -(330 * u) <= x <= 330 * u,
            8 * c == 17 * u,
    ;
    lemma_product(a, CODES_PER_DB, 1024);
    let b = fmul(a, CODES_PER_DB);
    let y = value(b);
    let w = g * u;
    assert(-((8200 * g) * u) <= (8 * y - 17 * x) * u <= (8200 * g) * u) by (nonlinear_arith)
        requires
            -(1025 * w) <= y * u - x * c <= 1025 * w,
            8 * c == 17 * u,
            w == g * u,
    ;
    lemma_divided(8 * y - 17 * x, 8200 * g, u);
    assert(-(17000 * g) <= 8 * y - 17 * (v + 120 * u) <= 17000 * g);
    if v == -120 * u {
        crate::accuracy::lemma_exact_sum(db, LEVELS, 0, 149);
        assert(0 * pow2(149) == 0);
        assert(x == 0);
        assert(magnitude(a) == 0);
        assert(magnitude(b) == 0) by {
            assert(0 * magnitude(CODES_PER_DB) == 0);
            lemma_ratio_pattern(0, pow2(149), negative(a) != negative(CODES_PER_DB));
            crate::rounding::lemma_ratio_between(0, pow2(149), 0, 24);
            crate::accuracy::lemma_exact(0, 0);
            assert(0 * pow2(0) == 0 && 0 * pow2(149) == 0);
        }
    }
    assert(v < -120 * u ==> y <= 0) by {
        if v < -120 * u {
            lemma_below_lowest(db);
        }
    }
    assert(v >= 0 ==> y >= 255 * u) by {
        if v >= 0 {
            lemma_above_full(db);
        }
    }
    let k = clamped(b, 0, FULL_CODE);
    lemma_zero(b);
    let kv = value(k);
    assert(0 <= kv <= 255 * u);
    let t = kv / u;
    lemma_fundamental_div_mod(kv, u);
    lemma_mod_bound(kv, u);
    lemma_div_pos_is_pos(kv, u);
    lemma_zero(k);
    assert(magnitude(k) == kv);
    if negative(k) {
        lemma_basic_div(0, u);
    }
    assert(t <= 255) by (nonlinear_arith)
        requires
            u * t <= kv,
            kv <= 255 * u,
            u > 0,
    ;
    assert(level_code(db) == t);
    assert(u * t == t * u && (t + 1) * u == t * u + u) by (nonlinear_arith);
    if v >= 0 {
        assert(kv == 255 * u);
        lemma_div_by_multiple(255, u);
    }
    if v <= -120 * u {
        assert(kv == 0);
        lemma_basic_div(0, u);
    }
}

/// Below the lowest level nothing is left.
proof fn lemma_below_lowest(db: Bits)
    requires
        is_finite(db),
        -(200 * one()) <= value(db) < -120 * one(),
    ensures
        value(fmul(fadd(db, LEVELS), CODES_PER_DB)) <= 0,
{
    lemma_one();
    lemma_code_constants();
    crate::arith::lemma_sum(db, LEVELS);
    let a = fadd(db, LEVELS);
    lemma_units();
    lemma_sum_error(db, LEVELS, 512);
    assert(negative(a));
    lemma_ratio_pattern(
        magnitude(a) * magnitude(CODES_PER_DB),
        pow2(149),
        negative(a) != negative(CODES_PER_DB),
    );
}

/// From full scale on the code is the highest.
proof fn lemma_above_full(db: Bits)
    requires
        is_finite(db),
        0 <= value(db) <= 200 * one(),
    ensures
        value(fmul(fadd(db, LEVELS), CODES_PER_DB)) >= 255 * one(),
{
    lemma_one();
    lemma_code_constants();
    lemma_units();
    let u = one();
    crate::arith::lemma_sum(db, LEVELS);
    lemma_sum_error(db, LEVELS, 512);
    let a = fadd(db, LEVELS);
    let x = value(db) + value(LEVELS);
    crate::rounding::lemma_nearest_monotone((120 * u) as nat, abs(x), 24);
    crate::accuracy::lemma_exact(120, 149);
    assert(value(a) >= 120 * u);
    let num = magnitude(a) * magnitude(CODES_PER_DB);
    let n = (255 * u) as nat;
    assert(num >= n * pow2(149)) by (nonlinear_arith)
        requires
            num == magnitude(a) * magnitude(CODES_PER_DB),
            magnitude(a) >= 120 * u,
            8 * magnitude(CODES_PER_DB) == 17 * u,
            n == 255 * u,
            u == pow2(149),
            u > 0,
    ;
    crate::rounding::lemma_ratio_between(num, pow2(149), n, 24);
    crate::accuracy::lemma_exact(255, 149);
    lemma_ratio_pattern(num, pow2(149), false);
    let c = value(CODES_PER_DB);
    let y = value(a);
    assert(-(1024 * (u * u)) <= y * c <= 1024 * (u * u)) by (nonlinear_arith)
        requires
            0 <= y <= 330 * u,
            8 * c == 17 * u,
    ;
    lemma_product(a, CODES_PER_DB, 1024);
}

// ---- Slices -----------------------------------------------------------------

/// The slices of a spectrogram lie an eighth of a window apart, from the start of the
/// file on to its last whole window: row `s` shows the block that starts `s` hops into
/// the file, and the hop is the one that the spectrogram names.
pub proof fn law_spectrogram_rows<M: Fn(Function, Bits) -> Bits, T: Fn(Vec<Bits>) -> Vec<Bin>>(
    m: &M,
    t: &T,
    mono: Seq<Bits>,
    rate: u32,
    size: usize,
    g: Spectrogram,
)
    requires
        is_spectrogram(m, t, mono, rate, size, g),
        size == 1024 || size == 2048 || size == 4096 || size == 8192,
        size <= mono.len(),
    ensures
        g.hop * 8 == size,
        g.freq_bins * 2 == size,
        g.fft_size == size,
        g.sample_rate == rate,
        g.slices() >= 1,
        (g.slices() - 1) * g.hop + size <= mono.len() < g.slices() * g.hop + size,
        exists|window: Seq<Bits>|
            {
                &&& #[trigger] is_hann(m, size as nat, window)
                &&& forall|s: int|
                    0 <= s < g.slices() ==> is_row(m, t, mono, (s * g.hop) as nat, window, #[trigger] g.row_at(s))
            },
{
    let window = choose|window: Seq<Bits>| #[trigger]
        is_hann(m, size as nat, window) && crate::spectra::is_grid(
            m,
            t,
            mono,
            window,
            slices_of(mono.len(), size as nat),
            g.data@,
        );
    let n = slices_of(mono.len(), size as nat);
    let bins = (size / 2) as int;
    let hop = (size / 8) as int;
    lemma_fundamental_div_mod(mono.len() - size, hop);
    lemma_mod_bound(mono.len() - size, hop);
    lemma_div_pos_is_pos(mono.len() - size, hop);
    let q = (mono.len() - size) / hop;
    assert(n == q + 1);
    assert(hop * q == q * hop && (q + 1) * hop == q * hop + hop) by (nonlinear_arith);
    lemma_div_by_multiple(n as int, bins);
    assert(g.slices() == n);
    assert forall|s: int| 0 <= s < g.slices() implies is_row(
        m,
        t,
        mono,
        (s * g.hop) as nat,
        window,
        #[trigger] g.row_at(s),
    ) by {
        assert(g.row_at(s) == g.data@.subrange(s * (window.len() / 2), (s + 1) * (window.len() / 2)));
    }
}

} // verus!
