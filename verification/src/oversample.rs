//! Oversampling for the clippers.
//!
//! Clipping makes harmonics above half the sample rate, which would fold back
//! into the audible band. So a zone can be clipped at two, four or eight times
//! its rate: the samples are spread out and low-passed, clipped, low-passed
//! again and thinned out. Both passes use one kernel, split into phases so that
//! nothing is computed that would be thrown away.

use vstd::prelude::*;
use vstd::arithmetic::div_mod::*;
use vstd::arithmetic::mul::*;
use crate::arith::{number, from_whole};
use crate::envelope::{channel_sum, sum_frame};
use crate::functions::{Function, is_total, gives, evaluate};
use crate::single::{Bits, ONE, TWO, less, less_than};
use crate::scalar::{fadd, fsub, fmul, fdiv, fabs};
use crate::scalar::{add_to, subtract, multiply, divide_by, absolute};

use crate::double::{DoubleBits, narrow, narrowed};
use crate::wide::{Operation, WIDE_ONE, WIDE_SMALL, WIDE_TWO, below, compute, is_arithmetic, is_below, over, plus, result, times, widened};

verus! {

/// Taps of the kernel per phase.
pub const TAPS_PER_PHASE: usize = 64;

/// Half a turn, and a full one.
pub const HALF_TURN: Bits = 0x4049_0fdb;
pub const TURN: Bits = 0x40c9_0fdb;
/// What counts as zero in a kernel.
pub const BILLIONTH: Bits = 0x3089_705f;
/// The corner of the low-pass, as a part of the original rate.
pub const CORNER: Bits = 0x3ee6_6666;
/// The shape of the Kaiser window.
pub const BETA: Bits = 0x4100_0000;

// ---- The kernel -------------------------------------------------------------

/// How far tap `k` of `taps` lies from the middle of the kernel.
pub open spec fn tap_offset(taps: nat, k: nat) -> Bits {
    fsub(number(k), fdiv(number((taps - 1) as nat), TWO))
}

/// `v` is the sinc of a low-pass at an offset.
pub open spec fn is_sinc<M: Fn(Function, Bits) -> Bits>(m: &M, cutoff: Bits, x: Bits, v: Bits) -> bool {
    if less(fabs(x), BILLIONTH) {
        v == fmul(TWO, cutoff)
    } else {
        exists|sine: Bits| #[trigger]
            gives(m, Function::Sin, fmul(fmul(TURN, cutoff), x), sine) && v == fdiv(
                sine,
                fmul(HALF_TURN, x),
            )
    }
}

/// Where tap `k` of `taps` lies in the window, from minus one to one.
pub open spec fn window_place(taps: nat, k: nat) -> Bits {
    fsub(fdiv(fmul(TWO, number(k)), fsub(number(taps), ONE)), ONE)
}

/// The power series of the Bessel function from term `k` on, cut off where a
/// term no longer counts. `term` is the term before.
pub open spec fn bessel_series<D: Fn(Operation, DoubleBits, DoubleBits) -> DoubleBits>(
    d: &D,
    x: DoubleBits,
    k: nat,
    sum: DoubleBits,
    term: DoubleBits,
) -> DoubleBits
    decreases 50 - k,
{
    if k >= 50 {
        sum
    } else {
        let q = over(d, x, times(d, WIDE_TWO, result(d, Operation::FromWhole, k as u64, 0)));
        let next = times(d, term, times(d, q, q));
        let total = plus(d, sum, next);
        if below(next, times(d, WIDE_SMALL, total)) {
            total
        } else {
            bessel_series(d, x, k + 1, total, next)
        }
    }
}

/// The modified Bessel function of the first kind, of order zero. This is what
/// a mathematical library gives as `Function::Bessel`.
pub fn bessel_i0<D: Fn(Operation, DoubleBits, DoubleBits) -> DoubleBits>(d: &D, x: Bits) -> (b: Bits)
    requires
        is_arithmetic(d),
    ensures
        narrowed(bessel_series(d, widened(d, x), 1, WIDE_ONE, WIDE_ONE), b),
{
    let wide: DoubleBits = compute(d, Operation::FromSingle, x as u64, 0);
    let mut sum: DoubleBits = WIDE_ONE;
    let mut term: DoubleBits = WIDE_ONE;
    let mut k: u64 = 1;
    let mut done: bool = false;
    while k < 50 && !done
        invariant
            is_arithmetic(d),
            wide == widened(d, x),
            1 <= k <= 50,
            bessel_series(d, wide, 1, WIDE_ONE, WIDE_ONE) == (if done {
                sum
            } else {
                bessel_series(d, wide, k as nat, sum, term)
            }),
        decreases 50 - k,
    {
        let n: DoubleBits = compute(d, Operation::FromWhole, k, 0);
        let twice: DoubleBits = compute(d, Operation::Times, WIDE_TWO, n);
        let q: DoubleBits = compute(d, Operation::Over, wide, twice);
        let square: DoubleBits = compute(d, Operation::Times, q, q);
        term = compute(d, Operation::Times, term, square);
        sum = compute(d, Operation::Plus, sum, term);
        let least: DoubleBits = compute(d, Operation::Times, WIDE_SMALL, sum);
        done = is_below(term, least);
        k = k + 1;
    }
    narrow(sum)
}

/// `v` is the Kaiser window at a place. `top` is the Bessel function at `beta`.
pub open spec fn is_kaiser<M: Fn(Function, Bits) -> Bits>(
    m: &M,
    beta: Bits,
    top: Bits,
    place: Bits,
    v: Bits,
) -> bool {
    exists|root: Bits, b: Bits|
        #![trigger gives(m, Function::SquareRoot, fsub(ONE, fmul(place, place)), root), gives(m, Function::Bessel, fmul(beta, root), b)]
        {
            &&& gives(m, Function::SquareRoot, fsub(ONE, fmul(place, place)), root)
            &&& gives(m, Function::Bessel, fmul(beta, root), b)
            &&& v == fdiv(b, top)
        }
}

/// `v` is tap `k` of a windowed sinc, before it is scaled.
pub open spec fn is_tap<M: Fn(Function, Bits) -> Bits>(
    m: &M,
    taps: nat,
    cutoff: Bits,
    beta: Bits,
    top: Bits,
    k: nat,
    v: Bits,
) -> bool {
    exists|s: Bits, w: Bits|
        #![trigger is_sinc(m, cutoff, tap_offset(taps, k), s), is_kaiser(m, beta, top, window_place(taps, k), w)]
        {
            &&& is_sinc(m, cutoff, tap_offset(taps, k), s)
            &&& is_kaiser(m, beta, top, window_place(taps, k), w)
            &&& v == fmul(s, w)
        }
}

/// Taps scaled so that they add up to one; left alone where they add up to
/// nothing.
pub open spec fn scaled(h: Seq<Bits>) -> Seq<Bits> {
    let total = channel_sum(h, 0, h.len() as int);
    if less(BILLIONTH, fabs(total)) {
        h.map_values(|v: Bits| fdiv(v, total))
    } else {
        h
    }
}

/// `h` are the taps of a windowed sinc, before they are scaled.
pub open spec fn are_taps<M: Fn(Function, Bits) -> Bits>(
    m: &M,
    taps: nat,
    cutoff: Bits,
    beta: Bits,
    top: Bits,
    h: Seq<Bits>,
) -> bool {
    &&& h.len() == taps
    &&& forall|k: int| 0 <= k < taps ==> is_tap(m, taps, cutoff, beta, top, k as nat, #[trigger] h[k])
}

/// `kernel` is a low-pass of `taps` taps. `cutoff` is a part of the sample rate
/// and `beta` shapes the window.
pub open spec fn is_lowpass<M: Fn(Function, Bits) -> Bits>(
    m: &M,
    taps: nat,
    cutoff: Bits,
    beta: Bits,
    kernel: Seq<Bits>,
) -> bool {
    exists|top: Bits, h: Seq<Bits>|
        #![trigger gives(m, Function::Bessel, beta, top), scaled(h)]
        {
            &&& gives(m, Function::Bessel, beta, top)
            &&& are_taps(m, taps, cutoff, beta, top, h)
            &&& kernel == scaled(h)
        }
}

fn sinc<M: Fn(Function, Bits) -> Bits>(m: &M, cutoff: Bits, x: Bits) -> (v: Bits)
    requires
        is_total(m),
    ensures
        is_sinc(m, cutoff, x, v),
{
    if less_than(absolute(x), BILLIONTH) {
        multiply(TWO, cutoff)
    } else {
        let sine: Bits = evaluate(m, Function::Sin, multiply(multiply(TURN, cutoff), x));
        divide_by(sine, multiply(HALF_TURN, x))
    }
}

fn kaiser<M: Fn(Function, Bits) -> Bits>(m: &M, beta: Bits, top: Bits, place: Bits) -> (v: Bits)
    requires
        is_total(m),
    ensures
        is_kaiser(m, beta, top, place, v),
{
    let root: Bits = evaluate(m, Function::SquareRoot, subtract(ONE, multiply(place, place)));
    let b: Bits = evaluate(m, Function::Bessel, multiply(beta, root));
    divide_by(b, top)
}

/// A low-pass of `taps` taps that lets a constant signal pass unchanged.
/// `cutoff` is a part of the sample rate and `beta` shapes the window.
pub fn kaiser_lowpass<M: Fn(Function, Bits) -> Bits>(m: &M, taps: usize, cutoff: Bits, beta: Bits) -> (kernel:
    Vec<Bits>)
    requires
        is_total(m),
    ensures
        is_lowpass(m, taps as nat, cutoff, beta, kernel@),
        kernel@.len() == taps,
{
    let top: Bits = evaluate(m, Function::Bessel, beta);
    let mut h: Vec<Bits> = Vec::new();
    let mut k: usize = 0;
    while k < taps
        invariant
            is_total(m),
            k <= taps,
            h@.len() == k,
            forall|j: int|
                0 <= j < k ==> is_tap(m, taps as nat, cutoff, beta, top, j as nat, #[trigger] h@[j]),
        decreases taps - k,
    {
        let x: Bits = subtract(from_whole(k as u64), divide_by(from_whole((taps - 1) as u64), TWO));
        let place: Bits = subtract(
            divide_by(multiply(TWO, from_whole(k as u64)), subtract(from_whole(taps as u64), ONE)),
            ONE,
        );
        let s: Bits = sinc(m, cutoff, x);
        let w: Bits = kaiser(m, beta, top, place);
        let v: Bits = multiply(s, w);
        proof {
            assert(is_sinc(m, cutoff, tap_offset(taps as nat, k as nat), s));
            assert(is_kaiser(m, beta, top, window_place(taps as nat, k as nat), w));
            assert(is_tap(m, taps as nat, cutoff, beta, top, k as nat, v));
        }
        h.push(v);
        k = k + 1;
    }
    let kernel: Vec<Bits> = scale(&h);
    assert(kernel@ == scaled(h@));
    kernel
}

fn scale(h: &Vec<Bits>) -> (r: Vec<Bits>)
    ensures
        r@ == scaled(h@),
{
    let total: Bits = sum_frame(h, 0, h.len());
    let divides: bool = less_than(BILLIONTH, absolute(total));
    let mut r: Vec<Bits> = Vec::new();
    let mut k: usize = 0;
    while k < h.len()
        invariant
            k <= h@.len(),
            total == channel_sum(h@, 0, h@.len() as int),
            divides == less(BILLIONTH, fabs(total)),
            r@ =~= scaled(h@).take(k as int),
        decreases h@.len() - k,
    {
        r.push(
            if divides {
                divide_by(h[k], total)
            } else {
                h[k]
            },
        );
        k = k + 1;
    }
    r
}

// ---- Up and down ------------------------------------------------------------

/// Up- and downsampling with one kernel.
pub struct Oversampler {
    pub factor: usize,
    /// `phases[i][k]` is tap `k * factor + i` of the kernel, times the factor.
    pub phases: Vec<Vec<Bits>>,
}

pub open spec fn is_factor(factor: int) -> bool {
    factor == 2 || factor == 4 || factor == 8
}

/// Tap `k` of phase `i` of a kernel.
pub open spec fn phase_tap(kernel: Seq<Bits>, factor: nat, i: int, k: int) -> Bits {
    fmul(kernel[k * factor + i], number(factor))
}

/// The first `k` terms of a phase applied to the input at `n`, added up in
/// order. Nothing comes before the input.
pub open spec fn phase_sum(phase: Seq<Bits>, input: Seq<Bits>, n: int, k: int) -> Bits
    decreases k,
{
    if k <= 0 {
        0
    } else if n >= k - 1 {
        fadd(phase_sum(phase, input, n, k - 1), fmul(phase[k - 1], input[n - (k - 1)]))
    } else {
        phase_sum(phase, input, n, k - 1)
    }
}

impl Oversampler {
    pub open spec fn wf(&self) -> bool {
        &&& is_factor(self.factor as int)
        &&& self.phases@.len() == self.factor
        &&& forall|i: int|
            0 <= i < self.phases@.len() ==> (#[trigger] self.phases@[i])@.len() == TAPS_PER_PHASE
    }

    /// The phases are those of a kernel.
    pub open spec fn splits(&self, kernel: Seq<Bits>) -> bool {
        forall|i: int, k: int|
            0 <= i < self.factor && 0 <= k < TAPS_PER_PHASE ==> (#[trigger] self.phases@[i]@[k])
                == phase_tap(kernel, self.factor as nat, i, k)
    }

    /// The input at the high rate: sample `j` comes from phase `j % factor` at
    /// input sample `j / factor`.
    pub open spec fn raised(&self, input: Seq<Bits>) -> Seq<Bits> {
        Seq::new(
            input.len() * self.factor as nat,
            |j: int|
                phase_sum(
                    self.phases@[j % self.factor as int]@,
                    input,
                    j / self.factor as int,
                    TAPS_PER_PHASE as int,
                ),
        )
    }

    /// The first `m` terms of the sum that gives output sample `n`: phase after
    /// phase, tap after tap.
    pub open spec fn low_sum(&self, high: Seq<Bits>, n: int, m: int) -> Bits
        decreases m,
    {
        if m <= 0 {
            0
        } else {
            let i = (m - 1) / TAPS_PER_PHASE as int;
            let k = (m - 1) % TAPS_PER_PHASE as int;
            let at = n * self.factor - i - k * self.factor;
            let before = self.low_sum(high, n, m - 1);
            if 0 <= at < high.len() {
                fadd(before, fmul(self.phases@[i]@[k], high[at]))
            } else {
                before
            }
        }
    }

    /// Every factor-th sample of the low-passed high rate.
    pub open spec fn lowered(&self, high: Seq<Bits>, len: nat) -> Seq<Bits> {
        Seq::new(
            len,
            |n: int|
                fdiv(
                    self.low_sum(high, n, self.factor * TAPS_PER_PHASE as int),
                    number(self.factor as nat),
                ),
        )
    }

    /// Clipped samples at the high rate: what a clipper may give for every
    /// sample of the raised input.
    pub open spec fn is_block<F: Fn(Bits) -> Bits>(&self, input: Seq<Bits>, clip_fn: F, high: Seq<Bits>) -> bool {
        &&& high.len() == self.raised(input).len()
        &&& forall|i: int|
            0 <= i < high.len() ==> call_ensures(clip_fn, (self.raised(input)[i],), #[trigger] high[i])
    }

    /// `self` oversamples by a factor, with the low-pass for it.
    pub open spec fn is_for<M: Fn(Function, Bits) -> Bits>(&self, m: &M, factor: nat) -> bool {
        &&& self.wf()
        &&& self.factor == factor
        &&& exists|kernel: Seq<Bits>| #[trigger]
            is_lowpass(m, TAPS_PER_PHASE as nat * factor, fdiv(CORNER, number(factor)), BETA, kernel)
                && self.splits(kernel)
    }

    /// The oversampler for a factor of two, four or eight.
    pub fn new<M: Fn(Function, Bits) -> Bits>(m: &M, factor: usize) -> (o: Oversampler)
        requires
            is_total(m),
            is_factor(factor as int),
        ensures
            o.is_for(m, factor as nat),
    {
        let cutoff: Bits = divide_by(CORNER, from_whole(factor as u64));
        let kernel: Vec<Bits> = kaiser_lowpass(m, TAPS_PER_PHASE * factor, cutoff, BETA);
        let o: Oversampler = Oversampler::with_kernel(factor, &kernel);
        proof {
            let taps = TAPS_PER_PHASE as nat * factor as nat;
            assert(taps == (TAPS_PER_PHASE * factor) as nat);
            assert(is_lowpass(m, taps, fdiv(CORNER, number(factor as nat)), BETA, kernel@));
        }
        o
    }

    /// Sends a block through the high rate: upsampled, clipped there sample by
    /// sample, and downsampled again.
    pub fn process_block<F: Fn(Bits) -> Bits>(&self, input: &Vec<Bits>, clip_fn: F) -> (out: Vec<Bits>)
        requires
            self.wf(),
            input@.len() * self.factor <= usize::MAX,
            forall|s: Bits| #[trigger] call_requires(clip_fn, (s,)),
        ensures
            exists|high: Seq<Bits>|
                self.is_block(input@, clip_fn, high) && out@ == #[trigger] self.lowered(
                    high,
                    input@.len(),
                ),
            out@.len() == input@.len(),
    {
        let raised: Vec<Bits> = self.upsample(input);
        let mut high: Vec<Bits> = Vec::new();
        let mut i: usize = 0;
        while i < raised.len()
            invariant
                i <= raised@.len(),
                high@.len() == i,
                forall|s: Bits| #[trigger] call_requires(clip_fn, (s,)),
                forall|j: int| 0 <= j < i ==> call_ensures(clip_fn, (raised@[j],), #[trigger] high@[j]),
            decreases raised@.len() - i,
        {
            let x: Bits = clip_fn(raised[i]);
            high.push(x);
            i = i + 1;
        }
        let out: Vec<Bits> = self.downsample(&high, input.len());
        assert(self.is_block(input@, clip_fn, high@));
        out
    }

    /// Splits a kernel into phases.
    pub fn with_kernel(factor: usize, kernel: &Vec<Bits>) -> (o: Oversampler)
        requires
            is_factor(factor as int),
            kernel@.len() == TAPS_PER_PHASE * factor,
        ensures
            o.wf(),
            o.factor == factor,
            o.splits(kernel@),
    {
        let scale: Bits = from_whole(factor as u64);
        let mut phases: Vec<Vec<Bits>> = Vec::new();
        let mut i: usize = 0;
        while i < factor
            invariant
                is_factor(factor as int),
                kernel@.len() == TAPS_PER_PHASE * factor,
                scale == number(factor as nat),
                i <= factor,
                phases@.len() == i,
                forall|a: int| 0 <= a < i ==> (#[trigger] phases@[a])@.len() == TAPS_PER_PHASE,
                forall|a: int, k: int|
                    0 <= a < i && 0 <= k < TAPS_PER_PHASE ==> (#[trigger] phases@[a]@[k]) == phase_tap(
                        kernel@,
                        factor as nat,
                        a,
                        k,
                    ),
            decreases factor - i,
        {
            let mut phase: Vec<Bits> = Vec::new();
            let mut k: usize = 0;
            while k < TAPS_PER_PHASE
                invariant
                    is_factor(factor as int),
                    kernel@.len() == TAPS_PER_PHASE * factor,
                    scale == number(factor as nat),
                    i < factor,
                    k <= TAPS_PER_PHASE,
                    phase@.len() == k,
                    forall|b: int|
                        0 <= b < k ==> (#[trigger] phase@[b]) == phase_tap(
                            kernel@,
                            factor as nat,
                            i as int,
                            b,
                        ),
                decreases TAPS_PER_PHASE - k,
            {
                assert(k * factor + i < kernel@.len() && k * factor <= 512) by (nonlinear_arith)
                    requires
                        k < 64,
                        i < factor <= 8,
                        kernel@.len() == 64 * factor,
                ;
                phase.push(multiply(kernel[k * factor + i], scale));
                k = k + 1;
            }
            let ghost before = phases@;
            phases.push(phase);
            proof {
                assert forall|a: int, k: int|
                    0 <= a < i + 1 && 0 <= k < TAPS_PER_PHASE implies (#[trigger] phases@[a]@[k])
                    == phase_tap(kernel@, factor as nat, a, k) by {
                    if a < i {
                        assert(phases@[a] == before[a]);
                        assert(before[a]@[k] == phase_tap(kernel@, factor as nat, a, k));
                    }
                }
            }
            i = i + 1;
        }
        Oversampler { factor, phases }
    }

    fn raise_one(&self, input: &Vec<Bits>, n: usize, i: usize) -> (r: Bits)
        requires
            self.wf(),
            n < input@.len(),
            i < self.factor,
        ensures
            r == phase_sum(self.phases@[i as int]@, input@, n as int, TAPS_PER_PHASE as int),
    {
        let phase: &Vec<Bits> = &self.phases[i];
        let mut acc: Bits = 0;
        let mut k: usize = 0;
        while k < TAPS_PER_PHASE
            invariant
                phase@.len() == TAPS_PER_PHASE,
                phase@ == self.phases@[i as int]@,
                n < input@.len(),
                k <= TAPS_PER_PHASE,
                acc == phase_sum(self.phases@[i as int]@, input@, n as int, k as int),
            decreases TAPS_PER_PHASE - k,
        {
            if n >= k {
                acc = add_to(acc, multiply(phase[k], input[n - k]));
            }
            k = k + 1;
        }
        acc
    }

    /// Brings a block to the high rate.
    pub fn upsample(&self, input: &Vec<Bits>) -> (high: Vec<Bits>)
        requires
            self.wf(),
            input@.len() * self.factor <= usize::MAX,
        ensures
            high@ == self.raised(input@),
    {
        let mut high: Vec<Bits> = Vec::new();
        let mut n: usize = 0;
        while n < input.len()
            invariant
                self.wf(),
                n <= input@.len(),
                input@.len() * self.factor <= usize::MAX,
                high@ =~= self.raised(input@).take(n * self.factor),
                n * self.factor <= input@.len() * self.factor,
            decreases input@.len() - n,
        {
            let mut i: usize = 0;
            while i < self.factor
                invariant
                    self.wf(),
                    n < input@.len(),
                    i <= self.factor,
                    0 <= n * self.factor + i <= input@.len() * self.factor,
                    high@ =~= self.raised(input@).take(n * self.factor + i),
                decreases self.factor - i,
            {
                let v: Bits = self.raise_one(input, n, i);
                proof {
                    let f = self.factor as int;
                    let j = n * f + i;
                    lemma_fundamental_div_mod_converse(j, f, n as int, i as int);
                    assert(j + 1 <= input@.len() * f) by (nonlinear_arith)
                        requires
                            j == n * f + i,
                            n + 1 <= input@.len(),
                            i < f,
                    ;
                    assert(self.raised(input@)[j] == v);
                }
                high.push(v);
                i = i + 1;
            }
            proof {
                let f = self.factor as int;
                assert((n + 1) * f == n * f + f) by (nonlinear_arith);
            }
            n = n + 1;
        }
        high
    }

    fn lower_one(&self, high: &Vec<Bits>, n: usize) -> (r: Bits)
        requires
            self.wf(),
            n * self.factor <= usize::MAX,
        ensures
            r == self.low_sum(high@, n as int, self.factor * TAPS_PER_PHASE as int),
    {
        let center: usize = n * self.factor;
        let mut acc: Bits = 0;
        let mut i: usize = 0;
        while i < self.factor
            invariant
                self.wf(),
                center == n * self.factor,
                i <= self.factor,
                acc == self.low_sum(high@, n as int, i * TAPS_PER_PHASE as int),
            decreases self.factor - i,
        {
            let mut k: usize = 0;
            while k < TAPS_PER_PHASE
                invariant
                    self.wf(),
                    center == n * self.factor,
                    i < self.factor,
                    k <= TAPS_PER_PHASE,
                    acc == self.low_sum(high@, n as int, i * TAPS_PER_PHASE as int + k),
                decreases TAPS_PER_PHASE - k,
            {
                assert(k * self.factor <= 512) by (nonlinear_arith)
                    requires
                        k <= 64,
                        self.factor <= 8,
                ;
                let back: usize = k * self.factor + i;
                proof {
                    let m = i * TAPS_PER_PHASE as int + k + 1;
                    lemma_fundamental_div_mod_converse(m - 1, TAPS_PER_PHASE as int, i as int, k as int);
                }
                if back <= center && center - back < high.len() {
                    acc = add_to(acc, multiply(self.phases[i][k], high[center - back]));
                }
                k = k + 1;
            }
            i = i + 1;
        }
        acc
    }

    /// Brings a block of `len` samples back from the high rate.
    pub fn downsample(&self, high: &Vec<Bits>, len: usize) -> (out: Vec<Bits>)
        requires
            self.wf(),
            len * self.factor <= usize::MAX,
        ensures
            out@ == self.lowered(high@, len as nat),
    {
        let scale: Bits = from_whole(self.factor as u64);
        let mut out: Vec<Bits> = Vec::new();
        let mut n: usize = 0;
        while n < len
            invariant
                self.wf(),
                scale == number(self.factor as nat),
                len * self.factor <= usize::MAX,
                n <= len,
                out@ =~= self.lowered(high@, len as nat).take(n as int),
            decreases len - n,
        {
            assert(n * self.factor <= len * self.factor) by (nonlinear_arith)
                requires
                    n <= len,
            ;
            out.push(divide_by(self.lower_one(high, n), scale));
            n = n + 1;
        }
        out
    }
}

/// A block keeps its length through the high rate and back.
pub proof fn law_oversampling_keeps_length(o: Oversampler, input: Seq<Bits>, clipped: Seq<Bits>)
    requires
        o.wf(),
        clipped.len() == o.raised(input).len(),
    ensures
        clipped.len() == input.len() * o.factor as nat,
        o.lowered(clipped, input.len()).len() == input.len(),
{
}

/// Every tap of the kernel stands in exactly one phase.
pub proof fn law_phases_hold_kernel(o: Oversampler, kernel: Seq<Bits>, t: int)
    requires
        o.wf(),
        o.splits(kernel),
        0 <= t < TAPS_PER_PHASE * o.factor,
    ensures
        ({
            let i = t % o.factor as int;
            let k = t / o.factor as int;
            0 <= i < o.factor && 0 <= k < TAPS_PER_PHASE && o.phases@[i]@[k] == fmul(
                kernel[t],
                number(o.factor as nat),
            )
        }),
{
    let f = o.factor as int;
    lemma_fundamental_div_mod(t, f);
    lemma_mod_bound(t, f);
    lemma_mul_is_commutative(f, t / f);
    assert(0 <= t / f < 64) by (nonlinear_arith)
        requires
            t == f * (t / f) + t % f,
            0 <= t % f < f,
            0 <= t < 64 * f,
    ;
    assert(o.phases@[t % f]@[t / f] == phase_tap(kernel, o.factor as nat, t % f, t / f));
}

} // verus!
