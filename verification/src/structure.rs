//! The harmony of a file: how much it changes from moment to moment, and where
//! notes begin.
//!
//! Here stand the slices of the file, the fold of a spectrum into twelve pitch
//! classes, the novelty of the sequence of chords, and the flux of the spectrum.
//! The transform and the functions of the mathematical library are supplied by
//! the caller.

use vstd::prelude::*;
use vstd::arithmetic::div_mod::*;
use vstd::arithmetic::power2::*;
use crate::accuracy::{is_near, one, lemma_near_cancel, lemma_near_coarser, lemma_near_divisor, lemma_near_factor, lemma_near_number, lemma_near_product, lemma_near_quotient, lemma_one, lemma_small_number};
use crate::arith::{number, from_whole};
use crate::detect::{BILLIONTH, is_p95, is_scaled_positive, p95, keep_positive, normalize_positive_p95, positive_of, square_sum};
use crate::functions::{Function, is_total, gives, evaluate};
use crate::plan::{least, most};
use crate::scalar::{fadd, fsub, fmul, fdiv, fmax, fabs, negated, truncated, raised, rounded};
use crate::scalar::{add_to, subtract, multiply, divide_by, larger, absolute, neg, truncate, ceiling, round};
use crate::single::{Bits, HALF, ONE, TWO, MILLIONTH, MINUS_ONE, less, less_than, negative, is_finite, value};
use crate::spectra::{Bin, is_hann, is_slice, is_transform, hann_n, slice_magnitudes};

verus! {

/// Window and hop of the analysis.
pub const WINDOW: usize = 4096;
pub const HOP: usize = 1024;
/// The pitch classes of an octave.
pub const CLASSES: usize = 12;
/// A longer sequence of chords is thinned out to about so many.
pub const MOST_CHORDS: Bits = 0x453b_8000;
/// The novelty looks at so many seconds.
pub const NOVELTY_SECS: Bits = 0x4080_0000;
/// At least so many chords on each side.
pub const LEAST_REACH: usize = 8;
/// Fewer chords have no novelty.
pub const LEAST_CHORDS: usize = 16;
/// Frequencies outside of these are no pitches.
pub const LOWEST_PITCH: Bits = 0x42a0_0000;
pub const HIGHEST_PITCH: Bits = 0x45fa_0000;

// ---- Slices -----------------------------------------------------------------

/// Is the file long enough for a novelty curve?
pub fn has_novelty(len: usize, rate: u32) -> (r: bool)
    ensures
        r == (len >= WINDOW * 4 && rate != 0),
{
    len >= WINDOW * 4 && rate != 0
}

/// Is the file long enough for an onset curve?
pub fn has_onsets(len: usize, rate: u32) -> (r: bool)
    ensures
        r == (len >= WINDOW * 2 && rate != 0),
{
    len >= WINDOW * 2 && rate != 0
}

/// The number of slices of a file.
pub fn slices(len: usize) -> (n: usize)
    requires
        len >= WINDOW,
    ensures
        n == (len - WINDOW) / HOP as int + 1,
        (n - 1) * HOP + WINDOW <= len,
{
    (len - WINDOW) / HOP + 1
}

/// Seconds from one slice to the next.
pub fn hop_secs(rate: u32) -> (r: Bits)
    ensures
        r == fdiv(number(HOP as nat), number(rate as nat)),
{
    divide_by(from_whole(HOP as u64), from_whole(rate as u64))
}

/// Every how many slices a chord is taken.
pub open spec fn stride_of(n: nat) -> nat {
    most(raised(fdiv(number(n), MOST_CHORDS)), 1)
}

/// The chords that are kept of `n`, and how many slices lie between two.
pub fn stride(n: usize) -> (r: u64)
    ensures
        r == stride_of(n as nat),
{
    let c: u64 = ceiling(divide_by(from_whole(n as u64), MOST_CHORDS));
    if c < 1 {
        1
    } else {
        c
    }
}

/// Seconds from one kept chord to the next.
pub fn chord_secs(hop: Bits, stride: u64) -> (r: Bits)
    ensures
        r == fmul(hop, number(stride as nat)),
{
    multiply(hop, from_whole(stride))
}

// ---- Chords -----------------------------------------------------------------

/// The frequency of bin `k`.
pub open spec fn bin_hz(k: nat, rate: u32) -> Bits {
    fdiv(fmul(number(k), number(rate as nat)), number(WINDOW as nat))
}

/// The frequency of bin `k`, where it can be a pitch.
pub fn pitch_hz(k: usize, rate: u32) -> (r: Option<Bits>)
    ensures
        r == (if less(bin_hz(k as nat, rate), LOWEST_PITCH) || less(
            HIGHEST_PITCH,
            bin_hz(k as nat, rate),
        ) {
            None
        } else {
            Some(bin_hz(k as nat, rate))
        }),
{
    let hz: Bits = divide_by(
        multiply(from_whole(k as u64), from_whole(rate as u64)),
        from_whole(WINDOW as u64),
    );
    if less_than(hz, LOWEST_PITCH) || less_than(HIGHEST_PITCH, hz) {
        None
    } else {
        Some(hz)
    }
}

/// The pitch class of a note, counted in semitones: the nearest whole number,
/// counted round the octave from below.
pub open spec fn note_class(note: Bits) -> nat {
    let n = rounded(fabs(note));
    if negative(note) {
        ((CLASSES - least(n, 0x8000_0000) as int % CLASSES as int) % CLASSES as int) as nat
    } else {
        least(n, 0x7fff_ffff) % CLASSES as nat
    }
}

/// The pitch class of a note.
pub fn pitch_class(note: Bits) -> (c: usize)
    ensures
        c == note_class(note),
        c < CLASSES,
{
    let n: u64 = round(absolute(note));
    if note >= 0x8000_0000 {
        let r: u64 = if n < 0x8000_0000 {
            n
        } else {
            0x8000_0000
        };
        ((CLASSES as u64 - r % CLASSES as u64) % CLASSES as u64) as usize
    } else {
        let r: u64 = if n < 0x7fff_ffff {
            n
        } else {
            0x7fff_ffff
        };
        (r % CLASSES as u64) as usize
    }
}

/// Concert pitch in hertz, and its number among the notes.
pub const CONCERT_PITCH: Bits = 0x43dc_0000;
pub const CONCERT_NOTE: Bits = 0x428a_0000;
pub const TWELVE: Bits = 0x4140_0000;

/// `c` is the pitch class of bin `k`, where it has one.
pub open spec fn is_class<M: Fn(Function, Bits) -> Bits>(m: &M, rate: u32, k: nat, c: Option<usize>) -> bool {
    let hz = bin_hz(k, rate);
    if less(hz, LOWEST_PITCH) || less(HIGHEST_PITCH, hz) {
        c is None
    } else {
        exists|log: Bits| #[trigger]
            gives(m, Function::Log2, fdiv(hz, CONCERT_PITCH), log) && c == Some(
                note_class(fadd(CONCERT_NOTE, fmul(TWELVE, log))) as usize,
            )
    }
}

/// `classes` are the pitch classes of all bins.
pub open spec fn are_classes<M: Fn(Function, Bits) -> Bits>(m: &M, rate: u32, classes: Seq<Option<usize>>) -> bool {
    &&& classes.len() == WINDOW / 2
    &&& forall|k: int| 0 <= k < classes.len() ==> is_class(m, rate, k as nat, #[trigger] classes[k])
}

fn pitch_classes<M: Fn(Function, Bits) -> Bits>(m: &M, rate: u32) -> (classes: Vec<Option<usize>>)
    requires
        is_total(m),
    ensures
        are_classes(m, rate, classes@),
        forall|k: int|
            0 <= k < classes@.len() ==> ((#[trigger] classes@[k]) matches Some(c) ==> c < CLASSES),
{
    let mut classes: Vec<Option<usize>> = Vec::new();
    let mut k: usize = 0;
    while k < WINDOW / 2
        invariant
            is_total(m),
            k <= WINDOW / 2,
            classes@.len() == k,
            forall|j: int| 0 <= j < k ==> is_class(m, rate, j as nat, #[trigger] classes@[j]),
            forall|j: int| 0 <= j < k ==> ((#[trigger] classes@[j]) matches Some(c) ==> c < CLASSES),
        decreases WINDOW / 2 - k,
    {
        let c: Option<usize> = match pitch_hz(k, rate) {
            None => None,
            Some(hz) => {
                let log: Bits = evaluate(m, Function::Log2, divide_by(hz, CONCERT_PITCH));
                assert(gives(m, Function::Log2, fdiv(bin_hz(k as nat, rate), CONCERT_PITCH), log));
                Some(pitch_class(add_to(CONCERT_NOTE, multiply(TWELVE, log))))
            },
        };
        assert(is_class(m, rate, k as nat, c));
        classes.push(c);
        k = k + 1;
    }
    classes
}

/// The sum of the first `n` magnitudes that belong to class `c`.
pub open spec fn class_sum(mags: Seq<Bits>, classes: Seq<Option<usize>>, c: usize, n: int) -> Bits
    decreases n,
{
    if n <= 0 {
        0
    } else {
        let before = class_sum(mags, classes, c, n - 1);
        if classes[n - 1] == Some(c) {
            fadd(before, mags[n - 1])
        } else {
            before
        }
    }
}

/// The chord of a spectrum: the sums of its twelve classes.
pub open spec fn chord(mags: Seq<Bits>, classes: Seq<Option<usize>>) -> Seq<Bits> {
    Seq::new(
        CLASSES as nat,
        |c: int| class_sum(mags, classes, c as usize, classes.len() as int),
    )
}

/// Folds a spectrum into its chord.
pub fn fold_chord(mags: &Vec<Bits>, classes: &Vec<Option<usize>>) -> (out: Vec<Bits>)
    requires
        mags@.len() >= classes@.len(),
        forall|k: int|
            0 <= k < classes@.len() ==> ((#[trigger] classes@[k]) matches Some(c) ==> c < CLASSES),
    ensures
        out@ == chord(mags@, classes@),
{
    let mut out: Vec<Bits> = Vec::new();
    while out.len() < CLASSES
        invariant
            out@.len() <= CLASSES,
            forall|c: int| 0 <= c < out@.len() ==> #[trigger] out@[c] == 0,
        decreases CLASSES - out@.len(),
    {
        out.push(0);
    }
    let mut k: usize = 0;
    while k < classes.len()
        invariant
            mags@.len() >= classes@.len(),
            forall|j: int|
                0 <= j < classes@.len() ==> ((#[trigger] classes@[j]) matches Some(c) ==> c
                    < CLASSES),
            k <= classes@.len(),
            out@.len() == CLASSES,
            forall|c: int|
                0 <= c < CLASSES ==> #[trigger] out@[c] == class_sum(
                    mags@,
                    classes@,
                    c as usize,
                    k as int,
                ),
        decreases classes@.len() - k,
    {
        assert(classes@[k as int] matches Some(c) ==> c < CLASSES);
        if let Some(c) = classes[k] {
            let v: Bits = add_to(out[c], mags[k]);
            out.set(c, v);
        }
        k = k + 1;
    }
    assert(out@ =~= chord(mags@, classes@));
    out
}

/// The sum of the squares of a chord, whose root is its length.
pub fn chord_power(v: &Vec<Bits>) -> (r: Bits)
    ensures
        r == square_sum(v@, 0, v@.len() as int),
{
    let mut sum: Bits = 0;
    let mut i: usize = 0;
    while i < v.len()
        invariant
            i <= v@.len(),
            sum == square_sum(v@, 0, i as int),
        decreases v@.len() - i,
    {
        sum = add_to(sum, multiply(v[i], v[i]));
        i = i + 1;
    }
    sum
}

/// A chord brought to length one.
pub open spec fn unit_chord(v: Seq<Bits>, root: Bits) -> Seq<Bits> {
    v.map_values(|x: Bits| fdiv(x, fmax(root, BILLIONTH)))
}

/// Brings a chord to length one, `root` being its length.
pub fn normalize_chord(v: &Vec<Bits>, root: Bits) -> (out: Vec<Bits>)
    ensures
        out@ == unit_chord(v@, root),
{
    let by: Bits = larger(root, BILLIONTH);
    let mut out: Vec<Bits> = Vec::new();
    let mut i: usize = 0;
    while i < v.len()
        invariant
            by == fmax(root, BILLIONTH),
            i <= v@.len(),
            out@ =~= unit_chord(v@, root).take(i as int),
        decreases v@.len() - i,
    {
        out.push(divide_by(v[i], by));
        i = i + 1;
    }
    assert(unit_chord(v@, root).take(v@.len() as int) =~= unit_chord(v@, root));
    out
}

// ---- Novelty ----------------------------------------------------------------

/// The chords that the novelty looks at on each side.
pub open spec fn reach_of(hop: Bits) -> nat {
    most(truncated(fdiv(NOVELTY_SECS, hop)) / 2, LEAST_REACH as nat)
}

/// The chords that the novelty looks at on each side.
pub fn reach(hop: Bits) -> (r: u64)
    ensures
        r == reach_of(hop),
{
    let w: u64 = truncate(divide_by(NOVELTY_SECS, hop)) / 2;
    if w < LEAST_REACH as u64 {
        LEAST_REACH as u64
    } else {
        w
    }
}

/// The distance of row `i` from the middle of a kernel of reach `l`.
pub open spec fn offset_of(i: nat, l: nat) -> Bits {
    fadd(fsub(number(i), number(l)), HALF)
}

/// The argument of the exponential at a place of the kernel.
pub open spec fn taper_of(i: nat, j: nat, l: nat) -> Bits {
    let di = offset_of(i, l);
    let dj = offset_of(j, l);
    let sigma = fdiv(number(l), TWO);
    fdiv(negated(fadd(fmul(di, di), fmul(dj, dj))), fmul(fmul(TWO, sigma), sigma))
}

/// Do the two chords lie on the same side of the moment?
pub open spec fn same_side(i: nat, j: nat, l: nat) -> bool {
    less(offset_of(i, l), 0) == less(offset_of(j, l), 0)
}

fn offset(i: usize, l: usize) -> (r: Bits)
    ensures
        r == offset_of(i as nat, l as nat),
{
    add_to(subtract(from_whole(i as u64), from_whole(l as u64)), HALF)
}

/// The argument of the exponential at a place of the kernel, and whether the
/// place counts as likeness or as contrast.
pub fn kernel_place(i: usize, j: usize, l: usize) -> (r: (Bits, bool))
    ensures
        r.0 == taper_of(i as nat, j as nat, l as nat),
        r.1 == same_side(i as nat, j as nat, l as nat),
{
    let di: Bits = offset(i, l);
    let dj: Bits = offset(j, l);
    let sigma: Bits = divide_by(from_whole(l as u64), TWO);
    let square: Bits = add_to(multiply(di, di), multiply(dj, dj));
    (
        divide_by(neg(square), multiply(multiply(TWO, sigma), sigma)),
        less_than(di, 0) == less_than(dj, 0),
    )
}

/// The likeness of two chords.
pub open spec fn likeness(a: Seq<Bits>, b: Seq<Bits>, n: int) -> Bits
    decreases n,
{
    if n <= 0 {
        0
    } else {
        fadd(likeness(a, b, n - 1), fmul(a[n - 1], b[n - 1]))
    }
}

fn liken(a: &Vec<Bits>, b: &Vec<Bits>) -> (r: Bits)
    requires
        a@.len() == CLASSES,
        b@.len() == CLASSES,
    ensures
        r == likeness(a@, b@, CLASSES as int),
{
    let mut dot: Bits = 0;
    let mut c: usize = 0;
    while c < CLASSES
        invariant
            a@.len() == CLASSES,
            b@.len() == CLASSES,
            c <= CLASSES,
            dot == likeness(a@, b@, c as int),
        decreases CLASSES - c,
    {
        dot = add_to(dot, multiply(a[c], b[c]));
        c = c + 1;
    }
    dot
}

/// The first `m` terms of the novelty at moment `t`, row by row. The kernel is
/// a square of `2 * l` rows.
pub open spec fn novelty_sum(chords: Seq<Vec<Bits>>, kernel: Seq<Bits>, l: nat, t: int, m: int) -> Bits
    decreases m,
{
    if m <= 0 {
        0
    } else {
        let i = (m - 1) / (2 * l as int);
        let j = (m - 1) % (2 * l as int);
        fadd(
            novelty_sum(chords, kernel, l, t, m - 1),
            fmul(
                likeness(chords[t + i - l]@, chords[t + j - l]@, CLASSES as int),
                kernel[m - 1],
            ),
        )
    }
}

/// The novelty at moment `t`.
pub fn novelty_at(chords: &Vec<Vec<Bits>>, kernel: &Vec<Bits>, l: usize, t: usize) -> (r: Bits)
    requires
        1 <= l <= t,
        t + l <= chords@.len(),
        kernel@.len() == (2 * l) * (2 * l),
        forall|i: int| 0 <= i < chords@.len() ==> (#[trigger] chords@[i])@.len() == CLASSES,
    ensures
        r == novelty_sum(chords@, kernel@, l as nat, t as int, kernel@.len() as int),
{
    let total: usize = kernel.len();
    let count: usize = chords.len();
    let mut sum: Bits = 0;
    let mut m: usize = 0;
    let mut i: usize = 0;
    let mut j: usize = 0;
    while m < total
        invariant
            1 <= l <= t,
            t + l <= chords@.len() == count,
            total == kernel@.len() == (2 * l) * (2 * l),
            forall|k: int| 0 <= k < chords@.len() ==> (#[trigger] chords@[k])@.len() == CLASSES,
            m <= total,
            m == i * (2 * l) + j,
            j < 2 * l,
            i <= 2 * l,
            sum == novelty_sum(chords@, kernel@, l as nat, t as int, m as int),
        decreases total - m,
    {
        proof {
            assert(i < 2 * l) by (nonlinear_arith)
                requires
                    m == i * (2 * l) + j,
                    m < (2 * l) * (2 * l),
                    j >= 0,
                    l >= 1,
            ;
            lemma_fundamental_div_mod_converse(m as int, 2 * l as int, i as int, j as int);
        }
        let like: Bits = liken(&chords[t - l + i], &chords[t - l + j]);
        sum = add_to(sum, multiply(like, kernel[m]));
        m = m + 1;
        if j + 1 == 2 * l {
            proof {
                assert((i + 1) * (2 * l) == i * (2 * l) + 2 * l) by (nonlinear_arith);
            }
            i = i + 1;
            j = 0;
        } else {
            j = j + 1;
        }
    }
    sum
}

/// The novelty of every moment; zero near both ends.
pub open spec fn novelty(chords: Seq<Vec<Bits>>, kernel: Seq<Bits>, l: nat) -> Seq<Bits> {
    Seq::new(
        chords.len(),
        |t: int|
            if l <= t < chords.len() - l {
                novelty_sum(chords, kernel, l, t, kernel.len() as int)
            } else {
                0
            },
    )
}

/// The novelty of every moment.
pub fn novelty_of(chords: &Vec<Vec<Bits>>, kernel: &Vec<Bits>, l: usize) -> (out: Vec<Bits>)
    requires
        1 <= l <= chords@.len(),
        kernel@.len() == (2 * l) * (2 * l),
        forall|i: int| 0 <= i < chords@.len() ==> (#[trigger] chords@[i])@.len() == CLASSES,
    ensures
        out@ == novelty(chords@, kernel@, l as nat),
{
    let n: usize = chords.len();
    let mut out: Vec<Bits> = Vec::new();
    let mut t: usize = 0;
    while t < n
        invariant
            1 <= l <= n == chords@.len(),
            kernel@.len() == (2 * l) * (2 * l),
            forall|i: int| 0 <= i < chords@.len() ==> (#[trigger] chords@[i])@.len() == CLASSES,
            t <= n,
            out@ =~= novelty(chords@, kernel@, l as nat).take(t as int),
        decreases n - t,
    {
        let v: Bits = if t >= l && t < n - l {
            novelty_at(chords, kernel, l, t)
        } else {
            0
        };
        out.push(v);
        t = t + 1;
    }
    out
}

/// A novelty curve scaled by its highest twentieth, cut at zero.
pub open spec fn lifted(s: Seq<Bits>, reference: Bits) -> Seq<Bits> {
    s.map_values(|v: Bits| fmax(fdiv(v, fmax(reference, MILLIONTH)), 0))
}

/// `out` is a novelty curve scaled by the highest twentieth of its positive
/// values, if it has any.
pub open spec fn is_lifted(curve: Seq<Bits>, out: Seq<Bits>) -> bool {
    &&& positive_of(curve).len() == 0 ==> out == curve
    &&& positive_of(curve).len() > 0 ==> exists|p: Bits|
        #[trigger] is_p95(positive_of(curve), p) && out == lifted(curve, p)
}

/// Scales a novelty curve by the highest twentieth of its positive values, if
/// it has any.
pub fn normalize_novelty(curve: &Vec<Bits>) -> (out: Vec<Bits>)
    ensures
        is_lifted(curve@, out@),
{
    let kept: Vec<Bits> = keep_positive(curve);
    let any: bool = kept.len() > 0;
    let p: Bits = if any {
        p95(&kept)
    } else {
        0
    };
    let by: Bits = larger(p, MILLIONTH);
    let mut out: Vec<Bits> = Vec::new();
    let mut i: usize = 0;
    while i < curve.len()
        invariant
            by == fmax(p, MILLIONTH),
            i <= curve@.len(),
            any ==> out@ =~= lifted(curve@, p).take(i as int),
            !any ==> out@ =~= curve@.take(i as int),
        decreases curve@.len() - i,
    {
        if any {
            out.push(larger(divide_by(curve[i], by), 0));
        } else {
            out.push(curve[i]);
        }
        i = i + 1;
    }
    proof {
        assert(curve@.take(curve@.len() as int) =~= curve@);
        assert(lifted(curve@, p).take(curve@.len() as int) =~= lifted(curve@, p));
        if any {
            assert(is_p95(positive_of(curve@), p));
        }
    }
    out
}

// ---- The novelty of a file --------------------------------------------------

/// `out` is the chord of a block, brought to length one.
pub open spec fn is_chord<M: Fn(Function, Bits) -> Bits, T: Fn(Vec<Bits>) -> Vec<Bin>>(
    m: &M,
    t: &T,
    mono: Seq<Bits>,
    start: nat,
    window: Seq<Bits>,
    classes: Seq<Option<usize>>,
    out: Seq<Bits>,
) -> bool {
    exists|mags: Seq<Bits>, root: Bits|
        #![trigger is_slice(m, t, mono, start, window, mags), unit_chord(chord(mags, classes), root)]
        {
            &&& is_slice(m, t, mono, start, window, mags)
            &&& gives(
                m,
                Function::SquareRoot,
                square_sum(chord(mags, classes), 0, CLASSES as int),
                root,
            )
            &&& out == unit_chord(chord(mags, classes), root)
        }
}

/// Slices of a file.
pub open spec fn slices_of(len: nat) -> nat {
    ((len - WINDOW) / HOP as int + 1) as nat
}

/// Chords that are kept of `n` slices.
pub open spec fn kept_of(n: nat, stride: nat) -> nat {
    ((n - 1) / stride as int + 1) as nat
}

/// `chords` are the chords that are kept of a file.
pub open spec fn are_chords<M: Fn(Function, Bits) -> Bits, T: Fn(Vec<Bits>) -> Vec<Bin>>(
    m: &M,
    t: &T,
    mono: Seq<Bits>,
    window: Seq<Bits>,
    classes: Seq<Option<usize>>,
    stride: nat,
    chords: Seq<Vec<Bits>>,
) -> bool {
    &&& chords.len() == kept_of(slices_of(mono.len()), stride)
    &&& forall|k: int|
        0 <= k < chords.len() ==> is_chord(
            m,
            t,
            mono,
            (k * stride * HOP) as nat,
            window,
            classes,
            (#[trigger] chords[k])@,
        )
}

fn chord_at<M: Fn(Function, Bits) -> Bits, T: Fn(Vec<Bits>) -> Vec<Bin>>(
    m: &M,
    t: &T,
    mono: &Vec<Bits>,
    start: usize,
    window: &Vec<Bits>,
    classes: &Vec<Option<usize>>,
) -> (out: Vec<Bits>)
    requires
        is_total(m),
        is_transform(t),
        window@.len() == WINDOW,
        classes@.len() == WINDOW / 2,
        forall|k: int|
            0 <= k < classes@.len() ==> ((#[trigger] classes@[k]) matches Some(c) ==> c < CLASSES),
        start + WINDOW <= mono@.len(),
    ensures
        is_chord(m, t, mono@, start as nat, window@, classes@, out@),
        out@.len() == CLASSES,
{
    let mags: Vec<Bits> = slice_magnitudes(m, t, mono, start, window);
    let v: Vec<Bits> = fold_chord(&mags, classes);
    let root: Bits = evaluate(m, Function::SquareRoot, chord_power(&v));
    let out: Vec<Bits> = normalize_chord(&v, root);
    assert(is_slice(m, t, mono@, start as nat, window@, mags@));
    assert(out@ == unit_chord(chord(mags@, classes@), root));
    out
}

proof fn lemma_kept_inside(k: int, stride: int, len: int)
    requires
        stride >= 1,
        len >= WINDOW,
        0 <= k < kept_of(slices_of(len as nat), stride as nat),
    ensures
        0 <= k * stride <= k * stride * HOP,
        k * stride * HOP + WINDOW <= len,
{
    let n = slices_of(len as nat);
    lemma_fundamental_div_mod(n - 1, stride);
    lemma_mod_bound(n - 1, stride);
    assert(0 <= k * stride && k * stride <= stride * ((n - 1) / stride)) by (nonlinear_arith)
        requires
            0 <= k <= (n - 1) / stride,
            stride >= 1,
    ;
    lemma_fundamental_div_mod(len - WINDOW, HOP as int);
    lemma_mod_bound(len - WINDOW, HOP as int);
}

fn kept_chords<M: Fn(Function, Bits) -> Bits, T: Fn(Vec<Bits>) -> Vec<Bin>>(
    m: &M,
    t: &T,
    mono: &Vec<Bits>,
    window: &Vec<Bits>,
    classes: &Vec<Option<usize>>,
    stride: usize,
) -> (chords: Vec<Vec<Bits>>)
    requires
        is_total(m),
        is_transform(t),
        window@.len() == WINDOW,
        classes@.len() == WINDOW / 2,
        forall|k: int|
            0 <= k < classes@.len() ==> ((#[trigger] classes@[k]) matches Some(c) ==> c < CLASSES),
        WINDOW <= mono@.len(),
        stride >= 1,
    ensures
        are_chords(m, t, mono@, window@, classes@, stride as nat, chords@),
        forall|k: int| 0 <= k < chords@.len() ==> (#[trigger] chords@[k])@.len() == CLASSES,
{
    let len: usize = mono.len();
    let n: usize = (slices(len) - 1) / stride + 1;
    let mut chords: Vec<Vec<Bits>> = Vec::new();
    let mut k: usize = 0;
    while k < n
        invariant
            is_total(m),
            is_transform(t),
            window@.len() == WINDOW,
            classes@.len() == WINDOW / 2,
            forall|j: int|
                0 <= j < classes@.len() ==> ((#[trigger] classes@[j]) matches Some(c) ==> c < CLASSES),
            WINDOW <= mono@.len() == len,
            stride >= 1,
            n == kept_of(slices_of(mono@.len()), stride as nat),
            k <= n,
            chords@.len() == k,
            forall|j: int|
                0 <= j < k ==> is_chord(
                    m,
                    t,
                    mono@,
                    (j * stride * HOP) as nat,
                    window@,
                    classes@,
                    (#[trigger] chords@[j])@,
                ),
            forall|j: int| 0 <= j < k ==> (#[trigger] chords@[j])@.len() == CLASSES,
        decreases n - k,
    {
        proof {
            lemma_kept_inside(k as int, stride as int, mono@.len() as int);
        }
        let one: Vec<Bits> = chord_at(m, t, mono, k * stride * HOP, window, classes);
        chords.push(one);
        k = k + 1;
    }
    chords
}

/// `v` stands at row `i` and column `j` of the kernel of reach `l`: likeness
/// counts for it, contrast against it, both less towards the edges.
pub open spec fn is_kernel_at<M: Fn(Function, Bits) -> Bits>(m: &M, l: nat, i: nat, j: nat, v: Bits) -> bool {
    exists|g: Bits| #[trigger]
        gives(m, Function::Exp, taper_of(i, j, l), g) && v == fmul(
            if same_side(i, j, l) {
                ONE
            } else {
                MINUS_ONE
            },
            g,
        )
}

/// `kernel` is the kernel of reach `l`, row by row.
pub open spec fn is_kernel<M: Fn(Function, Bits) -> Bits>(m: &M, l: nat, kernel: Seq<Bits>) -> bool {
    &&& kernel.len() == (2 * l) * (2 * l)
    &&& forall|x: int|
        0 <= x < kernel.len() ==> is_kernel_at(
            m,
            l,
            (x / (2 * l as int)) as nat,
            (x % (2 * l as int)) as nat,
            #[trigger] kernel[x],
        )
}

fn build_kernel<M: Fn(Function, Bits) -> Bits>(m: &M, l: usize) -> (kernel: Vec<Bits>)
    requires
        is_total(m),
        l >= 1,
        (2 * l) * (2 * l) <= usize::MAX,
    ensures
        is_kernel(m, l as nat, kernel@),
{
    assert(2 * l <= (2 * l) * (2 * l)) by (nonlinear_arith)
        requires
            l >= 1,
    ;
    let side: usize = 2 * l;
    let total: usize = side * side;
    let mut kernel: Vec<Bits> = Vec::new();
    let mut x: usize = 0;
    while x < total
        invariant
            is_total(m),
            l >= 1,
            side == 2 * l,
            total == side * side,
            x <= total,
            kernel@.len() == x,
            forall|y: int|
                0 <= y < x ==> is_kernel_at(
                    m,
                    l as nat,
                    (y / (2 * l as int)) as nat,
                    (y % (2 * l as int)) as nat,
                    #[trigger] kernel@[y],
                ),
        decreases total - x,
    {
        let (arg, like): (Bits, bool) = kernel_place(x / side, x % side, l);
        let g: Bits = evaluate(m, Function::Exp, arg);
        let v: Bits = multiply(
            if like {
                ONE
            } else {
                MINUS_ONE
            },
            g,
        );
        assert(is_kernel_at(
            m,
            l as nat,
            (x as int / (2 * l as int)) as nat,
            (x as int % (2 * l as int)) as nat,
            v,
        ));
        kernel.push(v);
        x = x + 1;
    }
    kernel
}

/// Seconds between two kept chords of a file.
pub open spec fn chord_hop(len: nat, rate: u32) -> Bits {
    fmul(
        fdiv(number(HOP as nat), number(rate as nat)),
        number(stride_of(slices_of(len))),
    )
}

/// A file long enough for a novelty curve.
pub open spec fn is_long_enough(len: nat, rate: u32) -> bool {
    len >= WINDOW * 4 && rate != 0 && slices_of(len) >= LEAST_CHORDS
}

/// The file is as long as the novelty looks to one side, and the kernel can be
/// held.
pub open spec fn has_reach(len: nat, rate: u32) -> bool {
    is_long_enough(len, rate) ==> {
        let l = reach_of(chord_hop(len, rate));
        &&& stride_of(slices_of(len)) <= usize::MAX
        &&& l <= kept_of(slices_of(len), stride_of(slices_of(len)))
        &&& (2 * l) * (2 * l) <= usize::MAX
    }
}

/// Whether the file is as long as the novelty looks to one side.
pub fn can_look_around(len: usize, rate: u32) -> (r: bool)
    ensures
        r == has_reach(len as nat, rate),
{
    if !has_novelty(len, rate) || slices(len) < LEAST_CHORDS {
        return true;
    }
    let n: usize = slices(len);
    let st: u64 = stride(n);
    let l: u64 = reach(chord_secs(hop_secs(rate), st));
    if st > usize::MAX as u64 {
        return false;
    }
    let kept: usize = (n - 1) / st as usize + 1;
    if l > kept as u64 {
        return false;
    }
    assert(l * l <= u64::MAX * u64::MAX) by (nonlinear_arith)
        requires
            0 <= l <= u64::MAX,
    ;
    let square: u128 = l as u128 * l as u128;
    assert((2 * l) * (2 * l) == 4 * (l * l)) by (nonlinear_arith);
    square <= (usize::MAX / 4) as u128
}

/// `r` is the novelty curve of a file and the seconds between its moments.
pub open spec fn is_novelty_curve<M: Fn(Function, Bits) -> Bits, T: Fn(Vec<Bits>) -> Vec<Bin>>(
    m: &M,
    t: &T,
    mono: Seq<Bits>,
    rate: u32,
    r: (Seq<Bits>, Bits),
) -> bool {
    let len = mono.len();
    if len < WINDOW * 4 || rate == 0 {
        r == (Seq::<Bits>::empty(), 0u32)
    } else if slices_of(len) < LEAST_CHORDS || !has_reach(len, rate) {
        r == (Seq::<Bits>::empty(), fdiv(number(HOP as nat), number(rate as nat)))
    } else {
        let l = reach_of(chord_hop(len, rate));
        &&& r.1 == chord_hop(len, rate)
        &&& exists|window: Seq<Bits>, classes: Seq<Option<usize>>, chords: Seq<Vec<Bits>>, kernel: Seq<Bits>|
            #![trigger are_chords(m, t, mono, window, classes, stride_of(slices_of(len)), chords), is_kernel(m, l, kernel)]
            {
                &&& is_hann(m, WINDOW as nat, window)
                &&& are_classes(m, rate, classes)
                &&& are_chords(m, t, mono, window, classes, stride_of(slices_of(len)), chords)
                &&& is_kernel(m, l, kernel)
                &&& is_lifted(novelty(chords, kernel, l), r.0)
            }
    }
}

/// The novelty curve of a file, and the seconds between its moments; empty
/// where the file is too short, also for the kernel that is laid over it.
pub fn novelty_curve<M: Fn(Function, Bits) -> Bits, T: Fn(Vec<Bits>) -> Vec<Bin>>(
    m: &M,
    t: &T,
    mono: &Vec<Bits>,
    sample_rate: u32,
) -> (r: (Vec<Bits>, Bits))
    requires
        is_total(m),
        is_transform(t),
    ensures
        is_novelty_curve(m, t, mono@, sample_rate, (r.0@, r.1)),
{
    let none: Vec<Bits> = Vec::new();
    assert(none@ =~= Seq::<Bits>::empty());
    if !has_novelty(mono.len(), sample_rate) {
        return (none, 0);
    }
    let hop: Bits = hop_secs(sample_rate);
    let n: usize = slices(mono.len());
    if n < LEAST_CHORDS || !can_look_around(mono.len(), sample_rate) {
        return (none, hop);
    }
    let st: u64 = stride(n);
    let effective: Bits = chord_secs(hop, st);
    let l: usize = reach(effective) as usize;
    let window: Vec<Bits> = hann_n(m, WINDOW);
    let classes: Vec<Option<usize>> = pitch_classes(m, sample_rate);
    let chords: Vec<Vec<Bits>> = kept_chords(m, t, mono, &window, &classes, st as usize);
    let kernel: Vec<Bits> = build_kernel(m, l);
    let raw: Vec<Bits> = novelty_of(&chords, &kernel, l);
    let curve: Vec<Bits> = normalize_novelty(&raw);
    proof {
        assert(are_chords(m, t, mono@, window@, classes@, stride_of(slices_of(mono@.len())), chords@));
        assert(is_kernel(m, reach_of(chord_hop(mono@.len(), sample_rate)), kernel@));
    }
    (curve, effective)
}

// ---- Onsets -----------------------------------------------------------------

/// The sum of the first `n` magnitudes' rises from one slice to the next.
pub open spec fn rise(before: Seq<Bits>, after: Seq<Bits>, n: int) -> Bits
    decreases n,
{
    if n <= 0 {
        0
    } else {
        let sum = rise(before, after, n - 1);
        let d = fsub(after[n - 1], before[n - 1]);
        if less(0, d) {
            fadd(sum, d)
        } else {
            sum
        }
    }
}

/// The flux of a spectrum from one slice to the next: the sum of its rises.
pub fn flux(before: &Vec<Bits>, after: &Vec<Bits>) -> (r: Bits)
    requires
        before@.len() == after@.len(),
    ensures
        r == rise(before@, after@, after@.len() as int),
{
    let mut sum: Bits = 0;
    let mut k: usize = 0;
    while k < after.len()
        invariant
            before@.len() == after@.len(),
            k <= after@.len(),
            sum == rise(before@, after@, k as int),
        decreases after@.len() - k,
    {
        let d: Bits = subtract(after[k], before[k]);
        if less_than(0, d) {
            sum = add_to(sum, d);
        }
        k = k + 1;
    }
    sum
}

/// The flux of every slice; none at the first.
pub open spec fn flux_of(mags: Seq<Vec<Bits>>) -> Seq<Bits> {
    Seq::new(
        mags.len(),
        |i: int|
            if i == 0 {
                0
            } else {
                rise(mags[i - 1]@, mags[i]@, mags[i]@.len() as int)
            },
    )
}

/// The flux of every slice.
pub fn flux_curve(mags: &Vec<Vec<Bits>>) -> (out: Vec<Bits>)
    requires
        forall|i: int, j: int|
            0 <= i < mags@.len() && 0 <= j < mags@.len() ==> (#[trigger] mags@[i])@.len() == (
            #[trigger] mags@[j])@.len(),
    ensures
        out@ == flux_of(mags@),
{
    let mut out: Vec<Bits> = Vec::new();
    let mut i: usize = 0;
    while i < mags.len()
        invariant
            forall|a: int, b: int|
                0 <= a < mags@.len() && 0 <= b < mags@.len() ==> (#[trigger] mags@[a])@.len() == (
                #[trigger] mags@[b])@.len(),
            i <= mags@.len(),
            out@ =~= flux_of(mags@).take(i as int),
        decreases mags@.len() - i,
    {
        if i == 0 {
            out.push(0);
        } else {
            out.push(flux(&mags[i - 1], &mags[i]));
        }
        i = i + 1;
    }
    out
}

/// `mags` are the magnitudes of all slices of a file.
pub open spec fn are_slices<M: Fn(Function, Bits) -> Bits, T: Fn(Vec<Bits>) -> Vec<Bin>>(
    m: &M,
    t: &T,
    mono: Seq<Bits>,
    window: Seq<Bits>,
    mags: Seq<Vec<Bits>>,
) -> bool {
    &&& mags.len() == slices_of(mono.len())
    &&& forall|k: int|
        0 <= k < mags.len() ==> is_slice(m, t, mono, (k * HOP) as nat, window, (#[trigger] mags[k])@)
}

fn all_slices<M: Fn(Function, Bits) -> Bits, T: Fn(Vec<Bits>) -> Vec<Bin>>(
    m: &M,
    t: &T,
    mono: &Vec<Bits>,
    window: &Vec<Bits>,
) -> (mags: Vec<Vec<Bits>>)
    requires
        is_total(m),
        is_transform(t),
        window@.len() == WINDOW,
        WINDOW <= mono@.len(),
    ensures
        are_slices(m, t, mono@, window@, mags@),
        forall|k: int| 0 <= k < mags@.len() ==> (#[trigger] mags@[k])@.len() == WINDOW / 2,
{
    let n: usize = slices(mono.len());
    let mut mags: Vec<Vec<Bits>> = Vec::new();
    let mut k: usize = 0;
    while k < n
        invariant
            is_total(m),
            is_transform(t),
            window@.len() == WINDOW,
            n == slices_of(mono@.len()),
            (n - 1) * HOP + WINDOW <= mono@.len() <= usize::MAX,
            k <= n,
            mags@.len() == k,
            forall|j: int|
                0 <= j < k ==> is_slice(m, t, mono@, (j * HOP) as nat, window@, (#[trigger] mags@[j])@),
            forall|j: int| 0 <= j < k ==> (#[trigger] mags@[j])@.len() == WINDOW / 2,
        decreases n - k,
    {
        let one: Vec<Bits> = slice_magnitudes(m, t, mono, k * HOP, window);
        mags.push(one);
        k = k + 1;
    }
    mags
}

/// `r` is the onset curve of a file and the seconds between its moments.
pub open spec fn is_onset_curve<M: Fn(Function, Bits) -> Bits, T: Fn(Vec<Bits>) -> Vec<Bin>>(
    m: &M,
    t: &T,
    mono: Seq<Bits>,
    rate: u32,
    r: (Seq<Bits>, Bits),
) -> bool {
    if mono.len() < WINDOW * 2 || rate == 0 {
        r == (Seq::<Bits>::empty(), 0u32)
    } else {
        &&& r.1 == fdiv(number(HOP as nat), number(rate as nat))
        &&& exists|window: Seq<Bits>, mags: Seq<Vec<Bits>>|
            #![trigger are_slices(m, t, mono, window, mags)]
            {
                &&& is_hann(m, WINDOW as nat, window)
                &&& are_slices(m, t, mono, window, mags)
                &&& is_scaled_positive(flux_of(mags), r.0)
            }
    }
}

/// The onset curve of a file, and the seconds between its moments; empty where
/// the file is too short.
pub fn onset_strength<M: Fn(Function, Bits) -> Bits, T: Fn(Vec<Bits>) -> Vec<Bin>>(
    m: &M,
    t: &T,
    mono: &Vec<Bits>,
    sample_rate: u32,
) -> (r: (Vec<Bits>, Bits))
    requires
        is_total(m),
        is_transform(t),
    ensures
        is_onset_curve(m, t, mono@, sample_rate, (r.0@, r.1)),
{
    if !has_onsets(mono.len(), sample_rate) {
        let none: Vec<Bits> = Vec::new();
        assert(none@ =~= Seq::<Bits>::empty());
        return (none, 0);
    }
    let window: Vec<Bits> = hann_n(m, WINDOW);
    let mags: Vec<Vec<Bits>> = all_slices(m, t, mono, &window);
    let mut curve: Vec<Bits> = flux_curve(&mags);
    normalize_positive_p95(&mut curve);
    assert(are_slices(m, t, mono@, window@, mags@));
    (curve, hop_secs(sample_rate))
}

// ---- Laws -------------------------------------------------------------------

/// A spectrum that does not rise anywhere has no flux.
pub proof fn law_no_rise_no_flux(before: Seq<Bits>, after: Seq<Bits>, n: int)
    requires
        forall|k: int| 0 <= k < n ==> !less(0, #[trigger] fsub(after[k], before[k])),
    ensures
        rise(before, after, n) == 0,
    decreases n,
{
    if n > 0 {
        law_no_rise_no_flux(before, after, n - 1);
        assert(!less(0, fsub(after[n - 1], before[n - 1])));
    }
}

/// A count of chords is never beyond a machine word, and never zero.
proof fn lemma_stride(n: nat)
    ensures
        1 <= stride_of(n) <= u64::MAX,
{
}

/// Seconds from one kept chord to the next are as many hops as slices lie between
/// them, up to rounding.
proof fn lemma_chord_hop(len: nat, rate: u32)
    requires
        rate != 0,
    ensures
        is_finite(chord_hop(len, rate)),
        value(chord_hop(len, rate)) >= 0,
        is_near(
            value(chord_hop(len, rate)),
            (stride_of(slices_of(len)) * HOP) * one(),
            rate as int,
            16,
        ),
{
    lemma_one();
    let u = one();
    let n = stride_of(slices_of(len));
    lemma_stride(slices_of(len));
    lemma_hop_secs(rate);
    lemma_near_number(n);
    let hop = fdiv(number(HOP as nat), number(rate as nat));
    let h = value(hop);
    let w = value(number(n));
    // a hop is not below a 2^23rd of a second, nor above 2^11 of them
    let r = rate as int;
    assert(h * 0x80_0000 >= u && h <= 0x800 * u) by (nonlinear_arith)
        requires
            -(4 * (0x400 * u)) <= (h * r - 0x400 * u) * 0x100_0000 <= 4 * (0x400 * u),
            1 <= r <= 0xffff_ffff,
            u > 0,
    ;
    assert(h > 0);
    assert(h * w >= u * 0x80_0000) by {
        lemma_pow2_pos(126);
        lemma_pow2_strictly_increases(46, 126);
        lemma2_to64();
        lemma2_to64_rest();
        let q = pow2(126) as int;
        assert(h >= q);
        assert(h * w >= q * u) by (nonlinear_arith)
            requires
                h >= q,
                w >= u,
                q > 0,
                u > 0,
        ;
        assert(q * u >= 0x80_0000 * u) by (nonlinear_arith)
            requires
                q >= 0x80_0000,
                u > 0,
        ;
    }
    assert(h * w <= u * pow2(276)) by {
        lemma2_to64();
        lemma_pow2_adds(11, 213);
        lemma_pow2_strictly_increases(224, 276);
        let q = pow2(213) as int;
        assert(h * w <= (0x800 * u) * q) by (nonlinear_arith)
            requires
                0 <= h <= 0x800 * u,
                0 <= w <= q,
        ;
        assert((0x800 * u) * q == u * (0x800 * q)) by (nonlinear_arith);
        assert(u * (0x800 * q) <= u * pow2(276)) by (nonlinear_arith)
            requires
                0x800 * q <= pow2(276),
                u > 0,
        ;
    }
    lemma_near_product(hop, number(n));
    let y = value(chord_hop(len, rate));
    assert(n * u >= 0) by (nonlinear_arith)
        requires
            n >= 0,
            u > 0,
    ;
    // y * u is h * w, h * rate is a hop and w is n
    let p = 0x400 * u;
    lemma_near_factor(h, p, r, 4, y, w, u, 1);
    assert(is_near(y, p * w, r * u, 6));
    assert(is_near(w, n * u, 1, 1));
    assert(r * u > 0) by (nonlinear_arith)
        requires
            r >= 1,
            u > 0,
    ;
    lemma_near_swap(y, p, w, r * u, n * u, 6);
    assert(is_near(y, p * (n * u), r * u, 8));
    assert(p * (n * u) == ((n * HOP) * u) * u) by (nonlinear_arith)
        requires
            p == 0x400 * u,
            HOP == 0x400,
    ;
    lemma_near_cancel(y, (n * HOP) * u, r, u, 8);
    assert((n * HOP) * u >= 0) by (nonlinear_arith)
        requires
            n >= 0,
            u > 0,
            HOP == 0x400,
    ;
    lemma_near_coarser(y, (n * HOP) * u, r, 8, 16);
}

/// A factor of the whole that is itself off.
proof fn lemma_near_swap(y: int, p: int, w: int, q: int, n: int, e: int)
    requires
        y >= 0,
        p >= 0,
        w >= 0,
        n >= 0,
        q > 0,
        0 <= e <= 1000,
        is_near(y, p * w, q, e),
        is_near(w, n, 1, 1),
    ensures
        is_near(y, p * n, q, e + 2),
{
    assert(w * p == p * w && n * p == p * n) by (nonlinear_arith);
    lemma_near_factor(w, n, 1, 1, y, p, q, e);
    assert(1 * q == q);
}

/// A hop in seconds.
proof fn lemma_hop_secs(rate: u32)
    requires
        rate != 0,
    ensures
        ({
            let hop = fdiv(number(HOP as nat), number(rate as nat));
            &&& is_finite(hop)
            &&& value(hop) >= 0
            &&& is_near(value(hop), HOP * one(), rate as int, 4)
        }),
{
    lemma_one();
    let u = one();
    lemma_small_number(HOP as nat);
    lemma_near_number(rate as nat);
    let a = number(HOP as nat);
    let b = number(rate as nat);
    let r = rate as int;
    let w = value(b);
    assert(w <= 0x1_0000_0100 * u) by (nonlinear_arith)
        requires
            (w * 1 - r * u) * 0x100_0000 <= 1 * (r * u),
            r <= 0xffff_ffff,
            u > 0,
    ;
    assert(value(a) * u >= w * 0x80_0000) by {
        lemma2_to64();
        lemma2_to64_rest();
        lemma_pow2_adds(40, 109);
        lemma_pow2_pos(109);
        assert(u >= 0x100_0000_0000 * 0x80_0000) by {
            lemma_pow2_strictly_increases(63, 149);
        }
        assert((0x400 * u) * u >= w * 0x80_0000) by (nonlinear_arith)
            requires
                w <= 0x1_0000_0100 * u,
                u >= 0x100_0000_0000 * 0x80_0000,
        ;
    }
    assert(value(a) * u <= w * pow2(276)) by {
        lemma2_to64();
        lemma_pow2_adds(10, 149);
        lemma_pow2_strictly_increases(159, 276);
        assert((0x400 * u) * u <= w * pow2(276)) by (nonlinear_arith)
            requires
                w >= u,
                0x400 * u <= pow2(276),
                u > 0,
        ;
    }
    lemma_near_quotient(a, b);
    let y = value(fdiv(a, b));
    assert(r * u > 0) by (nonlinear_arith)
        requires
            r >= 1,
            u > 0,
    ;
    lemma_near_divisor(w, r * u, 1, 1, y, (0x400 * u) * u, 1);
    assert(((0x400 * u) * u) * 1 == (0x400 * u) * u);
    lemma_near_cancel(y, 0x400 * u, r, u, 3);
    lemma_near_coarser(y, 0x400 * u, r, 3, 4);
}

/// Kept chords reach to the end of the file.
proof fn lemma_kept_reach(len: nat, stride: nat)
    requires
        stride >= 1,
        len >= WINDOW,
    ensures
        ({
            let kept = kept_of(slices_of(len), stride);
            &&& kept >= 1
            &&& (kept - 1) * stride * HOP + WINDOW <= len
            &&& len < kept * stride * HOP + WINDOW
        }),
{
    let n = slices_of(len);
    let kept = kept_of(n, stride);
    lemma_fundamental_div_mod(len - WINDOW, HOP as int);
    lemma_mod_bound(len - WINDOW, HOP as int);
    lemma_div_pos_is_pos(n - 1, stride as int);
    lemma_kept_inside(kept - 1, stride as int, len as int);
    lemma_fundamental_div_mod(n - 1, stride as int);
    lemma_mod_bound(n - 1, stride as int);
    let q = (n - 1) / stride as int;
    assert(stride * q + stride == kept * stride) by (nonlinear_arith)
        requires
            kept == q + 1,
    ;
    assert(n <= kept * stride);
}

/// The moments of a novelty curve are where the seconds between them say: the curve is
/// that of chords taken every so many hops, moment `k` standing for the block that
/// starts `k` times the spacing into the file, and the moments reach from the start of
/// the file to its last window.
pub proof fn law_novelty_moments<M: Fn(Function, Bits) -> Bits, T: Fn(Vec<Bits>) -> Vec<Bin>>(
    m: &M,
    t: &T,
    mono: Seq<Bits>,
    rate: u32,
    r: (Seq<Bits>, Bits),
)
    requires
        is_novelty_curve(m, t, mono, rate, r),
        r.0.len() > 0,
    ensures
        is_finite(r.1),
        exists|every: nat, window: Seq<Bits>, classes: Seq<Option<usize>>, chords: Seq<Vec<Bits>>, kernel: Seq<Bits>, l: nat|
            #![trigger are_chords(m, t, mono, window, classes, every, chords), is_kernel(m, l, kernel)]
            {
                &&& every >= 1
                &&& is_near(value(r.1), (every * 1024) * one(), rate as int, 16)
                &&& (r.0.len() - 1) * every * 1024 + 4096 <= mono.len() < r.0.len() * every * 1024 + 4096
                &&& chords.len() == r.0.len()
                &&& forall|k: int|
                    0 <= k < chords.len() ==> is_chord(
                        m,
                        t,
                        mono,
                        (k * every * 1024) as nat,
                        window,
                        classes,
                        (#[trigger] chords[k])@,
                    )
                &&& is_kernel(m, l, kernel)
                &&& is_lifted(novelty(chords, kernel, l), r.0)
            },
{
    let len = mono.len();
    let every = stride_of(slices_of(len));
    let l = reach_of(chord_hop(len, rate));
    lemma_stride(slices_of(len));
    lemma_chord_hop(len, rate);
    lemma_kept_reach(len, every);
    let (window, classes, chords, kernel) = choose|
        window: Seq<Bits>,
        classes: Seq<Option<usize>>,
        chords: Seq<Vec<Bits>>,
        kernel: Seq<Bits>,
    |
        #![trigger are_chords(m, t, mono, window, classes, every, chords), is_kernel(m, l, kernel)]
        {
            &&& is_hann(m, WINDOW as nat, window)
            &&& are_classes(m, rate, classes)
            &&& are_chords(m, t, mono, window, classes, every, chords)
            &&& is_kernel(m, l, kernel)
            &&& is_lifted(novelty(chords, kernel, l), r.0)
        };
    assert(are_chords(m, t, mono, window, classes, every, chords) && is_kernel(m, l, kernel));
}

/// The novelty curve spans the file: its moments, so many seconds apart, come to the
/// length of the file in seconds, up to one of them and a window.
pub proof fn law_novelty_spans_file<M: Fn(Function, Bits) -> Bits, T: Fn(Vec<Bits>) -> Vec<Bin>>(
    m: &M,
    t: &T,
    mono: Seq<Bits>,
    rate: u32,
    r: (Seq<Bits>, Bits),
)
    requires
        is_novelty_curve(m, t, mono, rate, r),
        r.0.len() > 0,
    ensures
        ((r.0.len() - 1) * value(r.1) * rate) * 0x10_0000 <= (mono.len() * one()) * 0x10_0001,
        ((mono.len() - 4096) * one()) * 0xf_ffff <= (r.0.len() * value(r.1) * rate) * 0x10_0000,
{
    law_novelty_moments(m, t, mono, rate, r);
    let every = choose|every: nat|
        {
            &&& every >= 1
            &&& is_near(value(r.1), (every * 1024) * one(), rate as int, 16)
            &&& #[trigger] ((r.0.len() - 1) * every) * 1024 + 4096 <= mono.len() < r.0.len() * every * 1024 + 4096
        };
    lemma_one();
    let u = one();
    let n = r.0.len() as int;
    let v = value(r.1) * rate;
    let p = (every * 1024) * u;
    assert(-p <= (v - p) * 0x10_0000 <= p);
    assert(p >= 0) by (nonlinear_arith)
        requires
            p == (every * 1024) * u,
            u > 0,
    ;
    assert((n - 1) * value(r.1) * rate == (n - 1) * v && n * value(r.1) * rate == n * v) by (nonlinear_arith)
        requires
            v == value(r.1) * rate,
    ;
    assert(((n - 1) * v) * 0x10_0000 <= ((n - 1) * p) * 0x10_0001) by (nonlinear_arith)
        requires
            v * 0x10_0000 <= p * 0x10_0001,
            n >= 1,
    ;
    assert((n * p) * 0xf_ffff <= (n * v) * 0x10_0000) by (nonlinear_arith)
        requires
            p * 0xf_ffff <= v * 0x10_0000,
            n >= 1,
    ;
    assert((n - 1) * p == ((n - 1) * every * 1024) * u && n * p == (n * every * 1024) * u) by (nonlinear_arith)
        requires
            p == (every * 1024) * u,
    ;
    let a = (n - 1) * every * 1024;
    let b = n * every * 1024;
    assert((a * u) <= mono.len() * u && (mono.len() - 4096) * u <= b * u) by (nonlinear_arith)
        requires
            a <= mono.len(),
            mono.len() - 4096 <= b,
            u > 0,
    ;
}

/// The moments of an onset curve are a hop apart: there is one for every slice, and
/// moment `k` stands for the slice that starts `k` hops into the file.
pub proof fn law_onset_moments<M: Fn(Function, Bits) -> Bits, T: Fn(Vec<Bits>) -> Vec<Bin>>(
    m: &M,
    t: &T,
    mono: Seq<Bits>,
    rate: u32,
    r: (Seq<Bits>, Bits),
)
    requires
        is_onset_curve(m, t, mono, rate, r),
        r.0.len() > 0,
    ensures
        is_finite(r.1),
        is_near(value(r.1), 1024 * one(), rate as int, 4),
        (r.0.len() - 1) * 1024 + 4096 <= mono.len() < r.0.len() * 1024 + 4096,
        exists|window: Seq<Bits>, mags: Seq<Vec<Bits>>|
            #![trigger are_slices(m, t, mono, window, mags)]
            {
                &&& is_hann(m, 4096, window)
                &&& mags.len() == r.0.len()
                &&& forall|k: int|
                    0 <= k < mags.len() ==> is_slice(
                        m,
                        t,
                        mono,
                        (k * 1024) as nat,
                        window,
                        (#[trigger] mags[k])@,
                    )
                &&& are_slices(m, t, mono, window, mags)
                &&& is_scaled_positive(flux_of(mags), r.0)
            },
{
    lemma_hop_secs(rate);
    let (window, mags) = choose|window: Seq<Bits>, mags: Seq<Vec<Bits>>|
        #![trigger are_slices(m, t, mono, window, mags)]
        {
            &&& is_hann(m, WINDOW as nat, window)
            &&& are_slices(m, t, mono, window, mags)
            &&& is_scaled_positive(flux_of(mags), r.0)
        };
    lemma_fundamental_div_mod(mono.len() - WINDOW, HOP as int);
    lemma_mod_bound(mono.len() - WINDOW, HOP as int);
    assert(are_slices(m, t, mono, window, mags));
}

/// A note that is a whole number of semitones has that number's place in the octave, so
/// that notes an octave apart are of one class.
pub proof fn law_classes_repeat_every_octave(n: nat)
    requires
        n <= 0x10_0000,
    ensures
        note_class(number(n)) == n % 12,
        note_class(number(n + 12)) == note_class(number(n)),
        note_class(negated(number(n))) == (12 - n % 12) % 12,
{
    lemma_whole_note(n);
    lemma_whole_note(n + 12);
    lemma_mod_add_multiples_vanish(n as int, 12);
}

proof fn lemma_whole_note(n: nat)
    requires
        n <= 0x100_0000,
    ensures
        note_class(number(n)) == n % 12,
        note_class(negated(number(n))) == (12 - n % 12) % 12,
{
    lemma_one();
    lemma_small_number(n);
    lemma_pow2_unfold(150);
    let b = number(n);
    let u = one();
    crate::scalar::lemma_negated(b);
    crate::single::lemma_zero(b);
    crate::dsp::lemma_absolute(b);
    crate::dsp::lemma_absolute(negated(b));
    assert(rounded(fabs(b)) == n && rounded(fabs(negated(b))) == n) by {
        assert(2 * (n * u) + u == n * (2 * u) + u) by (nonlinear_arith);
        lemma_fundamental_div_mod_converse(2 * (n * u) + u, 2 * u, n as int, u);
        assert(!negative(fabs(b)) && !negative(fabs(negated(b))));
    }
}

/// The frequency of a bin is its number times the rate over the window, up to rounding.
pub proof fn law_bin_frequency(k: nat, rate: u32)
    requires
        1 <= k <= 0x1000,
        rate != 0,
    ensures
        is_finite(bin_hz(k, rate)),
        is_near(value(bin_hz(k, rate)), (k * rate) * one(), 4096, 8),
{
    lemma_one();
    lemma2_to64();
    lemma2_to64_rest();
    lemma_pow2_strictly_increases(60, 149);
    let u = one();
    let r = rate as int;
    lemma_small_number(k);
    lemma_near_number(rate as nat);
    lemma_small_number(WINDOW as nat);
    let w = value(number(rate as nat));
    let x = k * u;
    assert(u <= w <= 0x1_0000_0100 * u) by (nonlinear_arith)
        requires
            -(1 * (r * u)) <= (w * 1 - r * u) * 0x100_0000 <= 1 * (r * u),
            w >= u,
            r <= 0xffff_ffff,
            u > 0,
    ;
    assert(u <= x <= 0x1000 * u) by (nonlinear_arith)
        requires
            x == k * u,
            1 <= k <= 0x1000,
            u > 0,
    ;
    lemma_pow2_adds(46, 149);
    lemma_pow2_strictly_increases(195, 276);
    assert(x * w >= u * 0x80_0000 && x * w <= u * pow2(276)) by (nonlinear_arith)
        requires
            u <= w <= 0x1_0000_0100 * u,
            u <= x <= 0x1000 * u,
            u >= 0x80_0000,
            0x4000_0000_0000 * u <= pow2(276),
    ;
    lemma_near_product(number(k), number(rate as nat));
    let a = fmul(number(k), number(rate as nat));
    let p = value(a);
    // p is k times the rate
    let ru = r * u;
    assert(ru > 0) by (nonlinear_arith)
        requires
            ru == r * u,
            r >= 1,
            u > 0,
    ;
    assert(x * w == w * x) by (nonlinear_arith);
    lemma_near_factor(w, ru, 1, 1, p, x, u, 1);
    assert(1 * u == u);
    assert(ru * x == ((k * r) * u) * u) by (nonlinear_arith)
        requires
            ru == r * u,
            x == k * u,
    ;
    lemma_near_cancel(p, (k * r) * u, 1, u, 3);
    let n = (k * r) * u;
    assert(is_near(p, n, 1, 3));
    assert(u <= n <= 0x1000_0000_0000 * u) by (nonlinear_arith)
        requires
            n == (k * r) * u,
            1 <= k <= 0x1000,
            1 <= r <= 0xffff_ffff,
            u > 0,
    ;
    assert(u <= 2 * p && p <= 0x2000_0000_0000 * u);
    let wv = value(number(WINDOW as nat));
    assert(wv == 4096 * u);
    assert(p * u >= wv * 0x80_0000 && p * u <= wv * pow2(276)) by (nonlinear_arith)
        requires
            u <= 2 * p,
            p <= 0x2000_0000_0000 * u,
            wv == 4096 * u,
            u >= 0x1000_0000_0000_000,
            0x4000_0000_0000 * u <= pow2(276),
    ;
    lemma_near_quotient(a, number(WINDOW as nat));
    let v = value(bin_hz(k, rate));
    lemma_near_factor(p, n, 1, 3, v, u, 4096 * u, 1);
    assert(1 * (4096 * u) == 4096 * u);
    lemma_near_cancel(v, n, 4096, u, 5);
    lemma_near_coarser(v, n, 4096, 5, 8);
}

} // verus!
