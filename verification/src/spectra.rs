//! Spectra: windows, transforms and magnitudes.
//!
//! The transform itself is supplied by the caller, like the functions of the
//! mathematical library. Here stand the blocks that go into it and what is made
//! of the bins that come out: the spectrum at a probe, and the codes of a
//! spectrogram.

use vstd::prelude::*;
use vstd::arithmetic::div_mod::*;
use crate::arith::{number, from_whole};
use crate::dsp::{NO_LEVEL, is_level, amp_to_db};
use crate::envelope::{apart, channel_sum, sum_frame};
use crate::fft::{FFT_SIZE, HOP_DIV, SPECTRUM_FFT_SIZE, SPECTRUM_AVG_FRAMES, Spectrogram, contrast, level_code, db_code, size_or_usual, chosen_size, probe_start, probe_window, slices_of, slice_count};
use crate::functions::{Function, is_total, gives, evaluate};
use crate::oversample::{BILLIONTH, TURN};
use crate::scalar::{fadd, fsub, fmul, fdiv, fmax, fmin};
use crate::scalar::{add_to, subtract, multiply, divide_by, larger, smaller};
use crate::single::{Bits, ONE, TWO, HALF, at_most, is_at_most, negative, lemma_zero};

verus! {

/// One bin of a transform.
#[derive(Clone, Copy, PartialEq, Eq, Debug, Structural)]
pub struct Bin {
    pub re: Bits,
    pub im: Bits,
}

/// The real part of a bin times the conjugate of another.
pub open spec fn cross(a: Bin, b: Bin) -> Bits {
    fadd(fmul(a.re, b.re), fmul(a.im, b.im))
}

/// The power of a bin.
pub fn power(z: Bin) -> (r: Bits)
    ensures
        r == cross(z, z),
{
    add_to(multiply(z.re, z.re), multiply(z.im, z.im))
}

// ---- The transform ----------------------------------------------------------

/// A supplied transform takes every block and gives as many bins.
pub open spec fn is_transform<T: Fn(Vec<Bits>) -> Vec<Bin>>(t: &T) -> bool {
    &&& forall|b: Vec<Bits>| #[trigger] call_requires(*t, (b,))
    &&& forall|b: Vec<Bits>, z: Vec<Bin>| #[trigger] call_ensures(*t, (b,), z) ==> z@.len() == b@.len()
}

/// The transform may give the bins `z` for the block `s`.
pub open spec fn is_spectrum<T: Fn(Vec<Bits>) -> Vec<Bin>>(t: &T, s: Seq<Bits>, z: Seq<Bin>) -> bool {
    exists|b: Vec<Bits>, v: Vec<Bin>| #[trigger] call_ensures(*t, (b,), v) && b@ == s && v@ == z
}

/// A block of one channel, each sample times that of a window.
pub open spec fn windowed(s: Seq<Bits>, start: nat, ch: nat, channel: nat, window: Seq<Bits>) -> Seq<Bits> {
    Seq::new(window.len(), |i: int| fmul(s[(start + i) * ch + channel], window[i]))
}

/// The bins of a block of one channel.
pub fn transform_block<T: Fn(Vec<Bits>) -> Vec<Bin>>(
    t: &T,
    s: &Vec<Bits>,
    start: usize,
    ch: usize,
    channel: usize,
    window: &Vec<Bits>,
) -> (z: Vec<Bin>)
    requires
        is_transform(t),
        channel < ch,
        (start + window@.len()) * ch <= s@.len(),
    ensures
        is_spectrum(t, windowed(s@, start as nat, ch as nat, channel as nat, window@), z@),
        z@.len() == window@.len(),
{
    let total: usize = s.len();
    let n: usize = window.len();
    let mut block: Vec<Bits> = Vec::new();
    let mut i: usize = 0;
    while i < n
        invariant
            channel < ch,
            n == window@.len(),
            (start + n) * ch <= s@.len() == total,
            i <= n,
            block@ =~= windowed(s@, start as nat, ch as nat, channel as nat, window@).take(i as int),
        decreases n - i,
    {
        assert((start + i) * ch + channel < (start + n) * ch && 0 <= (start + i) * ch && start + i
            <= (start + i) * ch) by (nonlinear_arith)
            requires
                channel < ch,
                0 <= start,
                0 <= i < n,
        ;
        block.push(multiply(s[(start + i) * ch + channel], window[i]));
        i = i + 1;
    }
    assert(block@ =~= windowed(s@, start as nat, ch as nat, channel as nat, window@));
    let ghost given = block;
    let z: Vec<Bin> = t(block);
    assert(call_ensures(*t, (given,), z));
    z
}

// ---- Windows ----------------------------------------------------------------

/// What the cosine of a window is applied to at place `i` of `n`.
pub open spec fn window_angle(n: nat, i: nat) -> Bits {
    fmul(TURN, fdiv(number(i), number((n - 1) as nat)))
}

/// `w` is a Hann window.
pub open spec fn is_hann<M: Fn(Function, Bits) -> Bits>(m: &M, n: nat, w: Seq<Bits>) -> bool {
    &&& w.len() == n
    &&& forall|i: int| 0 <= i < n ==> is_hann_at(m, n, i as nat, #[trigger] w[i])
}

pub open spec fn is_hann_at<M: Fn(Function, Bits) -> Bits>(m: &M, n: nat, i: nat, v: Bits) -> bool {
    exists|c: Bits| #[trigger]
        gives(m, Function::Cos, window_angle(n, i), c) && v == fmul(HALF, fsub(ONE, c))
}

/// A Hann window of `n` places.
pub fn hann_n<M: Fn(Function, Bits) -> Bits>(m: &M, n: usize) -> (w: Vec<Bits>)
    requires
        is_total(m),
    ensures
        is_hann(m, n as nat, w@),
{
    let mut w: Vec<Bits> = Vec::new();
    let mut i: usize = 0;
    while i < n
        invariant
            is_total(m),
            i <= n,
            w@.len() == i,
            forall|k: int| 0 <= k < i ==> is_hann_at(m, n as nat, k as nat, #[trigger] w@[k]),
        decreases n - i,
    {
        let angle: Bits = multiply(TURN, divide_by(from_whole(i as u64), from_whole((n - 1) as u64)));
        let c: Bits = evaluate(m, Function::Cos, angle);
        assert(gives(m, Function::Cos, window_angle(n as nat, i as nat), c));
        w.push(multiply(HALF, subtract(ONE, c)));
        i = i + 1;
    }
    w
}

pub const HARRIS_0: Bits = 0x3eb7_ae14;
pub const HARRIS_1: Bits = 0x3efa_0126;
pub const HARRIS_2: Bits = 0x3e10_abb4;
pub const HARRIS_3: Bits = 0x3c3f_5d79;
pub const THREE: Bits = 0x4040_0000;

/// The Blackman-Harris window where the cosines of one, two and three times the
/// angle are given.
pub open spec fn harris_of(c1: Bits, c2: Bits, c3: Bits) -> Bits {
    fsub(fadd(fsub(HARRIS_0, fmul(HARRIS_1, c1)), fmul(HARRIS_2, c2)), fmul(HARRIS_3, c3))
}

pub open spec fn is_harris_at<M: Fn(Function, Bits) -> Bits>(m: &M, n: nat, i: nat, v: Bits) -> bool {
    let a = window_angle(n, i);
    exists|c1: Bits, c2: Bits, c3: Bits|
        #![trigger gives(m, Function::Cos, a, c1), gives(m, Function::Cos, fmul(TWO, a), c2), gives(m, Function::Cos, fmul(THREE, a), c3)]
        {
            &&& gives(m, Function::Cos, a, c1)
            &&& gives(m, Function::Cos, fmul(TWO, a), c2)
            &&& gives(m, Function::Cos, fmul(THREE, a), c3)
            &&& v == harris_of(c1, c2, c3)
        }
}

/// `w` is a Blackman-Harris window.
pub open spec fn is_harris<M: Fn(Function, Bits) -> Bits>(m: &M, n: nat, w: Seq<Bits>) -> bool {
    &&& w.len() == n
    &&& forall|i: int| 0 <= i < n ==> is_harris_at(m, n, i as nat, #[trigger] w[i])
}

fn harris_at<M: Fn(Function, Bits) -> Bits>(m: &M, n: usize, i: usize) -> (v: Bits)
    requires
        is_total(m),
        i < n,
    ensures
        is_harris_at(m, n as nat, i as nat, v),
{
    let a: Bits = multiply(TURN, divide_by(from_whole(i as u64), from_whole((n - 1) as u64)));
    assert(a == window_angle(n as nat, i as nat));
    let c1: Bits = evaluate(m, Function::Cos, a);
    let c2: Bits = evaluate(m, Function::Cos, multiply(TWO, a));
    let c3: Bits = evaluate(m, Function::Cos, multiply(THREE, a));
    let first: Bits = subtract(HARRIS_0, multiply(HARRIS_1, c1));
    let second: Bits = add_to(first, multiply(HARRIS_2, c2));
    let v: Bits = subtract(second, multiply(HARRIS_3, c3));
    assert(v == harris_of(c1, c2, c3));
    v
}

/// A Blackman-Harris window of `n` places.
pub fn blackman_harris_window<M: Fn(Function, Bits) -> Bits>(m: &M, n: usize) -> (w: Vec<Bits>)
    requires
        is_total(m),
    ensures
        is_harris(m, n as nat, w@),
{
    let mut w: Vec<Bits> = Vec::new();
    let mut i: usize = 0;
    while i < n
        invariant
            is_total(m),
            i <= n,
            w@.len() == i,
            forall|k: int| 0 <= k < i ==> is_harris_at(m, n as nat, k as nat, #[trigger] w@[k]),
        decreases n - i,
    {
        let v: Bits = harris_at(m, n, i);
        w.push(v);
        i = i + 1;
    }
    w
}

// ---- Magnitudes -------------------------------------------------------------

/// `mags` are the magnitudes of the first `n` bins.
pub open spec fn are_magnitudes<M: Fn(Function, Bits) -> Bits>(
    m: &M,
    z: Seq<Bin>,
    n: nat,
    mags: Seq<Bits>,
) -> bool {
    &&& mags.len() == n
    &&& forall|k: int| 0 <= k < n ==> gives(m, Function::SquareRoot, cross(z[k], z[k]), #[trigger] mags[k])
}

/// The magnitudes of the first `n` bins.
pub fn magnitudes<M: Fn(Function, Bits) -> Bits>(m: &M, z: &Vec<Bin>, n: usize) -> (mags: Vec<Bits>)
    requires
        is_total(m),
        n <= z@.len(),
    ensures
        are_magnitudes(m, z@, n as nat, mags@),
{
    let mut mags: Vec<Bits> = Vec::new();
    let mut k: usize = 0;
    while k < n
        invariant
            is_total(m),
            k <= n <= z@.len(),
            mags@.len() == k,
            forall|j: int|
                0 <= j < k ==> gives(m, Function::SquareRoot, cross(z@[j], z@[j]), #[trigger] mags@[j]),
        decreases n - k,
    {
        mags.push(evaluate(m, Function::SquareRoot, power(z[k])));
        k = k + 1;
    }
    mags
}

/// `mags` are the magnitudes of the first half of the bins of a block.
pub open spec fn is_slice<M: Fn(Function, Bits) -> Bits, T: Fn(Vec<Bits>) -> Vec<Bin>>(
    m: &M,
    t: &T,
    mono: Seq<Bits>,
    start: nat,
    window: Seq<Bits>,
    mags: Seq<Bits>,
) -> bool {
    exists|z: Seq<Bin>| #[trigger]
        is_spectrum(t, windowed(mono, start, 1, 0, window), z) && are_magnitudes(
            m,
            z,
            window.len() / 2,
            mags,
        )
}

/// The magnitudes of the first half of the bins of a block.
pub fn slice_magnitudes<M: Fn(Function, Bits) -> Bits, T: Fn(Vec<Bits>) -> Vec<Bin>>(
    m: &M,
    t: &T,
    mono: &Vec<Bits>,
    start: usize,
    window: &Vec<Bits>,
) -> (mags: Vec<Bits>)
    requires
        is_total(m),
        is_transform(t),
        start + window@.len() <= mono@.len(),
    ensures
        is_slice(m, t, mono@, start as nat, window@, mags@),
{
    let z: Vec<Bin> = transform_block(t, mono, start, 1, 0, window);
    let mags: Vec<Bits> = magnitudes(m, &z, window.len() / 2);
    assert(is_spectrum(t, windowed(mono@, start as nat, 1, 0, window@), z@));
    mags
}

// ---- The spectrum at a probe ------------------------------------------------

/// The factor that makes up for a window.
pub open spec fn window_scale(window: Seq<Bits>) -> Bits {
    fdiv(TWO, fmax(channel_sum(window, 0, window.len() as int), BILLIONTH))
}

/// The power of bin `j` in the first `k` blocks, added up in order.
pub open spec fn gathered(mags: Seq<Vec<Bits>>, scale: Bits, j: int, k: int) -> Bits
    decreases k,
{
    if k <= 0 {
        0
    } else {
        let v = fmul(mags[k - 1]@[j], scale);
        fadd(gathered(mags, scale, j, k - 1), fmul(v, v))
    }
}

/// `mags` are the magnitudes of the blocks around a probe.
pub open spec fn are_probed<M: Fn(Function, Bits) -> Bits, T: Fn(Vec<Bits>) -> Vec<Bin>>(
    m: &M,
    t: &T,
    mono: Seq<Bits>,
    center: nat,
    window: Seq<Bits>,
    mags: Seq<Vec<Bits>>,
) -> bool {
    &&& mags.len() == SPECTRUM_AVG_FRAMES
    &&& forall|k: int|
        0 <= k < SPECTRUM_AVG_FRAMES ==> is_slice(
            m,
            t,
            mono,
            probe_start(
                center as int,
                k,
                SPECTRUM_AVG_FRAMES as int,
                SPECTRUM_FFT_SIZE as int / 4,
                SPECTRUM_FFT_SIZE as int,
                mono.len() as int,
            ) as nat,
            window,
            (#[trigger] mags[k])@,
        )
}

/// A level, kept between the lowest one and zero.
pub open spec fn in_line(level: Bits) -> Bits {
    fmin(fmax(level, NO_LEVEL), 0)
}

/// `db` is the level of bin `j`: that of the root of the mean power, kept
/// between the lowest level and zero.
pub open spec fn is_line_at<M: Fn(Function, Bits) -> Bits>(
    m: &M,
    mags: Seq<Vec<Bits>>,
    scale: Bits,
    j: int,
    db: Bits,
) -> bool {
    exists|root: Bits| #[trigger]
        gives(
            m,
            Function::SquareRoot,
            fmul(
                gathered(mags, scale, j, SPECTRUM_AVG_FRAMES as int),
                fdiv(ONE, number(SPECTRUM_AVG_FRAMES as nat)),
            ),
            root,
        ) && exists|level: Bits| #[trigger] is_level(m, root, level) && db == in_line(level)
}

/// `line` is the spectrum at a probe, in decibels.
pub open spec fn is_line<M: Fn(Function, Bits) -> Bits, T: Fn(Vec<Bits>) -> Vec<Bin>>(
    m: &M,
    t: &T,
    mono: Seq<Bits>,
    center: nat,
    line: Seq<Bits>,
) -> bool {
    exists|window: Seq<Bits>, mags: Seq<Vec<Bits>>|
        #![trigger are_probed(m, t, mono, center, window, mags)]
        {
            &&& is_harris(m, SPECTRUM_FFT_SIZE as nat, window)
            &&& are_probed(m, t, mono, center, window, mags)
            &&& line.len() == SPECTRUM_FFT_SIZE / 2
            &&& forall|j: int|
                0 <= j < line.len() ==> is_line_at(m, mags, window_scale(window), j, #[trigger] line[j])
        }
}

fn probe<M: Fn(Function, Bits) -> Bits, T: Fn(Vec<Bits>) -> Vec<Bin>>(
    m: &M,
    t: &T,
    mono: &Vec<Bits>,
    center_frame: usize,
    window: &Vec<Bits>,
) -> (mags: Vec<Vec<Bits>>)
    requires
        is_total(m),
        is_transform(t),
        window@.len() == SPECTRUM_FFT_SIZE,
        SPECTRUM_FFT_SIZE <= mono@.len(),
    ensures
        are_probed(m, t, mono@, center_frame as nat, window@, mags@),
        forall|k: int| 0 <= k < mags@.len() ==> (#[trigger] mags@[k])@.len() == SPECTRUM_FFT_SIZE / 2,
{
    let mut mags: Vec<Vec<Bits>> = Vec::new();
    let mut k: usize = 0;
    while k < SPECTRUM_AVG_FRAMES
        invariant
            is_total(m),
            is_transform(t),
            window@.len() == SPECTRUM_FFT_SIZE,
            SPECTRUM_FFT_SIZE <= mono@.len(),
            k <= SPECTRUM_AVG_FRAMES,
            mags@.len() == k,
            forall|j: int|
                0 <= j < k ==> is_slice(
                    m,
                    t,
                    mono@,
                    probe_start(
                        center_frame as int,
                        j,
                        SPECTRUM_AVG_FRAMES as int,
                        SPECTRUM_FFT_SIZE as int / 4,
                        SPECTRUM_FFT_SIZE as int,
                        mono@.len() as int,
                    ) as nat,
                    window@,
                    (#[trigger] mags@[j])@,
                ),
            forall|j: int| 0 <= j < k ==> (#[trigger] mags@[j])@.len() == SPECTRUM_FFT_SIZE / 2,
        decreases SPECTRUM_AVG_FRAMES - k,
    {
        let start: usize = probe_window(
            center_frame,
            k,
            SPECTRUM_AVG_FRAMES,
            SPECTRUM_FFT_SIZE / 4,
            SPECTRUM_FFT_SIZE,
            mono.len(),
        );
        let one: Vec<Bits> = slice_magnitudes(m, t, mono, start, window);
        mags.push(one);
        k = k + 1;
    }
    mags
}

proof fn lemma_in_line(level: Bits)
    ensures
        at_most(NO_LEVEL, in_line(level)),
        at_most(in_line(level), 0),
{
    lemma_zero(0);
    lemma_zero(NO_LEVEL);
    assert(negative(NO_LEVEL));
}

fn gather(mags: &Vec<Vec<Bits>>, scale: Bits, j: usize) -> (r: Bits)
    requires
        forall|k: int| 0 <= k < mags@.len() ==> j < (#[trigger] mags@[k])@.len(),
    ensures
        r == gathered(mags@, scale, j as int, mags@.len() as int),
{
    let mut sum: Bits = 0;
    let mut k: usize = 0;
    while k < mags.len()
        invariant
            forall|i: int| 0 <= i < mags@.len() ==> j < (#[trigger] mags@[i])@.len(),
            k <= mags@.len(),
            sum == gathered(mags@, scale, j as int, k as int),
        decreases mags@.len() - k,
    {
        assert(j < mags@[k as int]@.len());
        let v: Bits = multiply(mags[k][j], scale);
        sum = add_to(sum, multiply(v, v));
        k = k + 1;
    }
    sum
}

/// The spectrum around a frame, in decibels from the lowest frequency to the
/// highest; none where the file is too short.
pub fn spectrum_at<M: Fn(Function, Bits) -> Bits, T: Fn(Vec<Bits>) -> Vec<Bin>>(
    m: &M,
    t: &T,
    mono: &Vec<Bits>,
    center_frame: usize,
) -> (r: Option<Vec<Bits>>)
    requires
        is_total(m),
        is_transform(t),
    ensures
        r is None <==> mono@.len() < SPECTRUM_FFT_SIZE,
        r is Some ==> is_line(m, t, mono@, center_frame as nat, r->0@),
        r is Some ==> forall|i: int|
            0 <= i < r->0@.len() ==> at_most(NO_LEVEL, #[trigger] r->0@[i]) && at_most(r->0@[i], 0),
{
    if mono.len() < SPECTRUM_FFT_SIZE {
        return None;
    }
    let window: Vec<Bits> = blackman_harris_window(m, SPECTRUM_FFT_SIZE);
    let scale: Bits = divide_by(TWO, larger(sum_frame(&window, 0, window.len()), BILLIONTH));
    let mags: Vec<Vec<Bits>> = probe(m, t, mono, center_frame, &window);
    let share: Bits = divide_by(ONE, from_whole(SPECTRUM_AVG_FRAMES as u64));
    let mut line: Vec<Bits> = Vec::new();
    let mut j: usize = 0;
    while j < SPECTRUM_FFT_SIZE / 2
        invariant
            is_total(m),
            mags@.len() == SPECTRUM_AVG_FRAMES,
            forall|k: int|
                0 <= k < mags@.len() ==> (#[trigger] mags@[k])@.len() == SPECTRUM_FFT_SIZE / 2,
            share == fdiv(ONE, number(SPECTRUM_AVG_FRAMES as nat)),
            j <= SPECTRUM_FFT_SIZE / 2,
            line@.len() == j,
            forall|k: int| 0 <= k < j ==> is_line_at(m, mags@, scale, k, #[trigger] line@[k]),
            forall|k: int|
                0 <= k < j ==> at_most(NO_LEVEL, #[trigger] line@[k]) && at_most(line@[k], 0),
        decreases SPECTRUM_FFT_SIZE / 2 - j,
    {
        let root: Bits = evaluate(m, Function::SquareRoot, multiply(gather(&mags, scale, j), share));
        let level: Bits = amp_to_db(m, root);
        let db: Bits = smaller(larger(level, NO_LEVEL), 0);
        proof {
            assert(is_level(m, root, level) && db == in_line(level));
            assert(is_line_at(m, mags@, scale, j as int, db));
            lemma_in_line(level);
        }
        line.push(db);
        j = j + 1;
    }
    proof {
        assert(scale == window_scale(window@));
        assert(are_probed(m, t, mono@, center_frame as nat, window@, mags@));
        assert(is_line(m, t, mono@, center_frame as nat, line@));
    }
    Some(line)
}

// ---- The spectrogram --------------------------------------------------------

/// Power up to this counts as none.
pub const NO_POWER: Bits = 0x2b8c_bccc;
/// The lowest level of a spectrogram, in decibels.
pub const LOWEST_LEVEL: Bits = 0xc2f0_0000;
pub const TEN: Bits = 0x4120_0000;

/// The power of a bin, made up for the size of the window.
pub open spec fn scaled_power(z: Bin, size: nat) -> Bits {
    let scale = fdiv(TWO, number(size));
    fmul(cross(z, z), fmul(scale, scale))
}

/// A bin shows in a spectrogram as `code`.
pub open spec fn is_code<M: Fn(Function, Bits) -> Bits>(m: &M, z: Bin, size: nat, code: u8) -> bool {
    if at_most(scaled_power(z, size), NO_POWER) {
        code == level_code(LOWEST_LEVEL)
    } else {
        exists|log: Bits| #[trigger]
            gives(m, Function::Log10, scaled_power(z, size), log) && code == level_code(fmul(TEN, log))
    }
}

/// A block shows in a spectrogram as `row`.
pub open spec fn is_row<M: Fn(Function, Bits) -> Bits, T: Fn(Vec<Bits>) -> Vec<Bin>>(
    m: &M,
    t: &T,
    mono: Seq<Bits>,
    start: nat,
    window: Seq<Bits>,
    row: Seq<u8>,
) -> bool {
    exists|z: Seq<Bin>| #[trigger]
        is_spectrum(t, windowed(mono, start, 1, 0, window), z) && is_row_of(m, z, window.len(), row)
}

pub open spec fn is_row_of<M: Fn(Function, Bits) -> Bits>(m: &M, z: Seq<Bin>, size: nat, row: Seq<u8>) -> bool {
    &&& row.len() == size / 2
    &&& forall|j: int| 0 <= j < row.len() ==> is_code(m, z[j], size, #[trigger] row[j])
}

fn code_row<M: Fn(Function, Bits) -> Bits, T: Fn(Vec<Bits>) -> Vec<Bin>>(
    m: &M,
    t: &T,
    mono: &Vec<Bits>,
    start: usize,
    window: &Vec<Bits>,
) -> (row: Vec<u8>)
    requires
        is_total(m),
        is_transform(t),
        start + window@.len() <= mono@.len(),
    ensures
        is_row(m, t, mono@, start as nat, window@, row@),
        row@.len() == window@.len() / 2,
{
    let size: usize = window.len();
    let z: Vec<Bin> = transform_block(t, mono, start, 1, 0, window);
    let scale: Bits = divide_by(TWO, from_whole(size as u64));
    let square: Bits = multiply(scale, scale);
    let mut row: Vec<u8> = Vec::new();
    let mut j: usize = 0;
    while j < size / 2
        invariant
            is_total(m),
            z@.len() == size,
            square == fmul(fdiv(TWO, number(size as nat)), fdiv(TWO, number(size as nat))),
            j <= size / 2,
            row@.len() == j,
            forall|k: int| 0 <= k < j ==> is_code(m, z@[k], size as nat, #[trigger] row@[k]),
        decreases size / 2 - j,
    {
        let p: Bits = multiply(power(z[j]), square);
        let code: u8 = if is_at_most(p, NO_POWER) {
            db_code(LOWEST_LEVEL)
        } else {
            let log: Bits = evaluate(m, Function::Log10, p);
            assert(gives(m, Function::Log10, scaled_power(z@[j as int], size as nat), log));
            db_code(multiply(TEN, log))
        };
        row.push(code);
        j = j + 1;
    }
    assert(is_spectrum(t, windowed(mono@, start as nat, 1, 0, window@), z@));
    row
}

/// `data` holds the rows of a file, one block after the other.
pub open spec fn is_grid<M: Fn(Function, Bits) -> Bits, T: Fn(Vec<Bits>) -> Vec<Bin>>(
    m: &M,
    t: &T,
    mono: Seq<Bits>,
    window: Seq<Bits>,
    slices: nat,
    data: Seq<u8>,
) -> bool {
    let bins = window.len() / 2;
    &&& data.len() == slices * bins
    &&& forall|s: int|
        0 <= s < slices ==> is_row(
            m,
            t,
            mono,
            (s * (window.len() / HOP_DIV as nat)) as nat,
            window,
            #[trigger] data.subrange(s * bins, (s + 1) * bins),
        )
}

/// `g` is the spectrogram of a file with a window of one of the sizes that can
/// be chosen.
pub open spec fn is_spectrogram<M: Fn(Function, Bits) -> Bits, T: Fn(Vec<Bits>) -> Vec<Bin>>(
    m: &M,
    t: &T,
    mono: Seq<Bits>,
    rate: u32,
    size: usize,
    g: Spectrogram,
) -> bool {
    if mono.len() < size {
        &&& g.data@.len() == 0
        &&& (g.freq_bins, g.hop, g.fft_size) == (0usize, 256usize, FFT_SIZE)
        &&& (g.floor_code, g.ceil_code) == (0u8, 255u8)
        &&& g.sample_rate == rate
    } else {
        &&& exists|window: Seq<Bits>| #[trigger]
            is_hann(m, size as nat, window) && is_grid(
                m,
                t,
                mono,
                window,
                slices_of(mono.len(), size as nat),
                g.data@,
            )
        &&& (g.freq_bins, g.hop, g.fft_size) == ((size / 2) as usize, (size / HOP_DIV) as usize, size)
        &&& (g.floor_code, g.ceil_code) == contrast(g.data@)
        &&& g.sample_rate == rate
    }
}

fn code_rows<M: Fn(Function, Bits) -> Bits, T: Fn(Vec<Bits>) -> Vec<Bin>>(
    m: &M,
    t: &T,
    mono: &Vec<Bits>,
    window: &Vec<Bits>,
) -> (data: Vec<u8>)
    requires
        is_total(m),
        is_transform(t),
        HOP_DIV <= window@.len() <= mono@.len(),
    ensures
        is_grid(m, t, mono@, window@, slices_of(mono@.len(), window@.len()), data@),
{
    let size: usize = window.len();
    let hop: usize = size / HOP_DIV;
    let n: usize = slice_count(mono.len(), size);
    let ghost bins = window@.len() / 2;
    let mut data: Vec<u8> = Vec::new();
    let mut s: usize = 0;
    assert(0 * bins == 0);
    while s < n
        invariant
            is_total(m),
            is_transform(t),
            HOP_DIV <= size == window@.len() <= mono@.len(),
            hop == size / HOP_DIV,
            hop == window@.len() / HOP_DIV as nat,
            n == (mono@.len() - size) / hop as int + 1,
            bins == window@.len() / 2,
            s <= n,
            data@.len() == s * bins,
            forall|k: int|
                0 <= k < s ==> is_row(
                    m,
                    t,
                    mono@,
                    (k * (window@.len() / HOP_DIV as nat)) as nat,
                    window@,
                    #[trigger] data@.subrange(k * bins, (k + 1) * bins),
                ),
        decreases n - s,
    {
        proof {
            lemma_slice_inside(s as int, hop as int, size as int, mono@.len() as int);
            assert(mono.len() <= usize::MAX);
        }
        let row: Vec<u8> = code_row(m, t, mono, s * hop, window);
        let ghost before = data@;
        append_codes(&mut data, &row);
        proof {
            assert((s + 1) * bins == s * bins + bins) by (nonlinear_arith);
            assert forall|k: int| 0 <= k < s + 1 implies is_row(
                m,
                t,
                mono@,
                (k * (window@.len() / HOP_DIV as nat)) as nat,
                window@,
                #[trigger] data@.subrange(k * bins, (k + 1) * bins),
            ) by {
                assert(0 <= k * bins && (k + 1) * bins == k * bins + bins) by (nonlinear_arith)
                    requires
                        0 <= k,
                        0 <= bins,
                ;
                if k < s {
                    assert((k + 1) * bins <= s * bins) by (nonlinear_arith)
                        requires
                            k + 1 <= s,
                            0 <= bins,
                    ;
                    assert(data@.subrange(k * bins, (k + 1) * bins) =~= before.subrange(
                        k * bins,
                        (k + 1) * bins,
                    ));
                } else {
                    assert(data@.subrange(k * bins, (k + 1) * bins) =~= row@);
                }
            }
        }
        s = s + 1;
    }
    data
}

proof fn lemma_slice_inside(s: int, hop: int, size: int, len: int)
    requires
        hop >= 1,
        size <= len,
        0 <= s < (len - size) / hop + 1,
    ensures
        0 <= s * hop,
        s * hop + size <= len,
{
    lemma_fundamental_div_mod(len - size, hop);
    lemma_mod_bound(len - size, hop);
    assert(0 <= s * hop && s * hop <= hop * ((len - size) / hop)) by (nonlinear_arith)
        requires
            0 <= s <= (len - size) / hop,
            hop >= 1,
    ;
}

fn append_codes(out: &mut Vec<u8>, part: &Vec<u8>)
    ensures
        final(out)@ == old(out)@ + part@,
{
    let mut i: usize = 0;
    while i < part.len()
        invariant
            i <= part@.len(),
            out@ =~= old(out)@ + part@.take(i as int),
        decreases part@.len() - i,
    {
        out.push(part[i]);
        i = i + 1;
    }
    assert(part@.take(part@.len() as int) =~= part@);
}

/// The spectrogram of a file.
pub fn compute_spectrogram<M: Fn(Function, Bits) -> Bits, T: Fn(Vec<Bits>) -> Vec<Bin>>(
    m: &M,
    t: &T,
    mono: &Vec<Bits>,
    sample_rate: u32,
    fft_size: usize,
) -> (g: Spectrogram)
    requires
        is_total(m),
        is_transform(t),
    ensures
        is_spectrogram(m, t, mono@, sample_rate, size_or_usual(fft_size), g),
{
    let size: usize = chosen_size(fft_size);
    if mono.len() < size {
        return Spectrogram::empty(sample_rate);
    }
    let window: Vec<Bits> = hann_n(m, size);
    let data: Vec<u8> = code_rows(m, t, mono, &window);
    assert(is_hann(m, size as nat, window@));
    Spectrogram::with_codes(data, size, sample_rate)
}

// ---- Laws -------------------------------------------------------------------

/// Where a file has room for them, the blocks of a spectrum lie around the frame that
/// was asked for: each of them holds that frame, and they start a quarter of a window
/// apart, the second one with the frame in its middle. Near an end of the file each
/// stays as close to its place as the file allows.
pub proof fn law_spectrum_looks_around_frame<M: Fn(Function, Bits) -> Bits, T: Fn(Vec<Bits>) -> Vec<Bin>>(
    m: &M,
    t: &T,
    mono: Seq<Bits>,
    center: nat,
    line: Seq<Bits>,
)
    requires
        is_line(m, t, mono, center, line),
        16384 <= mono.len(),
    ensures
        exists|window: Seq<Bits>, mags: Seq<Vec<Bits>>, starts: Seq<int>|
            #![trigger is_harris(m, 16384, window), are_slices_at(m, t, mono, starts, window, mags)]
            {
                &&& is_harris(m, 16384, window)
                &&& starts.len() == 4
                &&& are_slices_at(m, t, mono, starts, window, mags)
                &&& forall|k: int| 0 <= k < 4 ==> 0 <= #[trigger] starts[k] <= mono.len() - 16384
                &&& forall|k: int, s: int|
                    0 <= k < 4 && 0 <= s <= mono.len() - 16384 ==> #[trigger] apart(
                        starts[k],
                        center - 8192 + 4096 * (k - 1),
                    ) <= #[trigger] apart(s, center - 8192 + 4096 * (k - 1))
                &&& 12288 <= center <= mono.len() - 16384 ==> forall|k: int|
                    0 <= k < 4 ==> #[trigger] starts[k] <= center < starts[k] + 16384 && starts[k] == center - 8192
                        + 4096 * (k - 1)
                &&& line.len() == 8192
                &&& forall|j: int|
                    0 <= j < 8192 ==> is_line_at(m, mags, window_scale(window), j, #[trigger] line[j])
            },
{
    let (window, mags) = choose|window: Seq<Bits>, mags: Seq<Vec<Bits>>|
        #![trigger are_probed(m, t, mono, center, window, mags)]
        {
            &&& is_harris(m, SPECTRUM_FFT_SIZE as nat, window)
            &&& are_probed(m, t, mono, center, window, mags)
            &&& line.len() == SPECTRUM_FFT_SIZE / 2
            &&& forall|j: int|
                0 <= j < line.len() ==> is_line_at(m, mags, window_scale(window), j, #[trigger] line[j])
        };
    let starts = Seq::new(4, |k: int| probe_start(center as int, k, 4, 4096, 16384, mono.len() as int));
    assert(are_slices_at(m, t, mono, starts, window, mags)) by {
        assert forall|k: int| 0 <= k < mags.len() implies is_slice(
            m,
            t,
            mono,
            starts[k] as nat,
            window,
            (#[trigger] mags[k])@,
        ) by {
            assert(starts[k] == probe_start(
                center as int,
                k,
                SPECTRUM_AVG_FRAMES as int,
                SPECTRUM_FFT_SIZE as int / 4,
                SPECTRUM_FFT_SIZE as int,
                mono.len() as int,
            ));
        }
    }
    assert forall|k: int, s: int| 0 <= k < 4 && 0 <= s <= mono.len() - 16384 implies #[trigger] apart(
        starts[k],
        center - 8192 + 4096 * (k - 1),
    ) <= #[trigger] apart(s, center - 8192 + 4096 * (k - 1)) by {
        assert((k - (4int - 1) / 2) * 4096 == 4096 * (k - 1));
    }
    assert(is_harris(m, 16384, window));
}

/// `mags` are the magnitudes of the blocks that start at some frames.
pub open spec fn are_slices_at<M: Fn(Function, Bits) -> Bits, T: Fn(Vec<Bits>) -> Vec<Bin>>(
    m: &M,
    t: &T,
    mono: Seq<Bits>,
    starts: Seq<int>,
    window: Seq<Bits>,
    mags: Seq<Vec<Bits>>,
) -> bool {
    &&& mags.len() == starts.len()
    &&& forall|k: int|
        0 <= k < mags.len() ==> is_slice(m, t, mono, starts[k] as nat, window, (#[trigger] mags[k])@)
}

/// The spectrum is that of the sound around the frame: where two files sound the same
/// around two frames, away from their ends, they have the same spectrum there. So it
/// moves with the sound, and nothing farther away matters.
pub proof fn law_spectrum_moves_with_sound<M: Fn(Function, Bits) -> Bits, T: Fn(Vec<Bits>) -> Vec<Bin>>(
    m: &M,
    t: &T,
    mono: Seq<Bits>,
    center: nat,
    other: Seq<Bits>,
    there: nat,
    line: Seq<Bits>,
)
    requires
        is_line(m, t, mono, center, line),
        12288 <= center <= mono.len() - 16384,
        12288 <= there <= other.len() - 16384,
        forall|i: int| -12288 <= i < 16384 ==> other[there + i] == #[trigger] mono[center + i],
    ensures
        is_line(m, t, other, there, line),
{
    let (window, mags) = choose|window: Seq<Bits>, mags: Seq<Vec<Bits>>|
        #![trigger are_probed(m, t, mono, center, window, mags)]
        {
            &&& is_harris(m, SPECTRUM_FFT_SIZE as nat, window)
            &&& are_probed(m, t, mono, center, window, mags)
            &&& line.len() == SPECTRUM_FFT_SIZE / 2
            &&& forall|j: int|
                0 <= j < line.len() ==> is_line_at(m, mags, window_scale(window), j, #[trigger] line[j])
        };
    assert forall|k: int| 0 <= k < SPECTRUM_AVG_FRAMES implies is_slice(
        m,
        t,
        other,
        probe_start(
            there as int,
            k,
            SPECTRUM_AVG_FRAMES as int,
            SPECTRUM_FFT_SIZE as int / 4,
            SPECTRUM_FFT_SIZE as int,
            other.len() as int,
        ) as nat,
        window,
        (#[trigger] mags[k])@,
    ) by {
        let a = center - 8192 + 4096 * (k - 1);
        let b = there - 8192 + 4096 * (k - 1);
        assert(is_slice(m, t, mono, a as nat, window, mags[k]@));
        assert forall|i: int| 0 <= i < window.len() implies other[b as nat + i] == #[trigger] mono[a as nat + i] by {
            let j = i + a - center;
            assert(other[there + j] == mono[center + j]);
        }
        law_block_moves_with_sound(mono, a as nat, other, b as nat, window);
    }
    assert(are_probed(m, t, other, there, window, mags));
}

/// A block holds the samples from its start on, each weighted with its place in the
/// window, and nothing else: where two files sound the same, their blocks are the same.
pub proof fn law_block_moves_with_sound(mono: Seq<Bits>, start: nat, other: Seq<Bits>, there: nat, window: Seq<Bits>)
    requires
        forall|i: int| 0 <= i < window.len() ==> other[there + i] == #[trigger] mono[start + i],
    ensures
        windowed(mono, start, 1, 0, window) == windowed(other, there, 1, 0, window),
        windowed(mono, start, 1, 0, window).len() == window.len(),
        forall|i: int|
            0 <= i < window.len() ==> #[trigger] windowed(mono, start, 1, 0, window)[i] == fmul(
                mono[start + i],
                window[i],
            ),
{
    assert(windowed(mono, start, 1, 0, window) =~= windowed(other, there, 1, 0, window)) by {
        assert forall|i: int| 0 <= i < window.len() implies #[trigger] windowed(mono, start, 1, 0, window)[i]
            == windowed(other, there, 1, 0, window)[i] by {
            assert(other[there + i] == mono[start + i]);
        }
    }
}

} // verus!
