//! The stereo correlation of a file over its time.
//!
//! Windows of a tenth of a second overlap by half. Each has a correlation, from
//! which the means of the channels are taken out, and a weight that fades out
//! where the window is quiet against the loudest one.

use vstd::prelude::*;
use vstd::arithmetic::power2::*;
use crate::arith::{number, from_whole, lemma_infinity, lemma_pattern_exact};
use crate::correlation::{CorrTimeline, Layout, WINDOW_FADE, WINDOW_FLOOR, fade_weight, faded, layout_of, timeline_layout};
use crate::double::{DoubleBits, double_magnitude, double_unsigned, narrow, narrowed};
use crate::rounding::lemma_ratio_between;
use crate::scalar::{divide_by, fdiv};
use crate::single::{Bits, MINUS_ONE, ONE, at_most, last_digit, lemma_magnitude_order, lemma_zero, magnitude, significand, unsigned};
use crate::wide::{Operation, WIDE_LEAST, WIDE_MINUS_ONE, WIDE_ONE, WIDE_TEN, WIDE_TINY, WIDE_TWO, WIDE_ZERO, compute, is_arithmetic, is_below, result, to_unit, wide_larger};
use crate::wide::{below, in_unit, minus, over, plus, times, wide_max, widened};

verus! {

/// The sums over a window: of the channels, of their squares and of their product.
#[derive(Clone, Copy, PartialEq, Eq, Debug, Structural)]
pub struct Sums {
    pub l: DoubleBits,
    pub r: DoubleBits,
    pub ll: DoubleBits,
    pub rr: DoubleBits,
    pub lr: DoubleBits,
}

/// The sums over `n` frames of the first two channels, from frame `lo` on.
pub open spec fn sums_of<D: Fn(Operation, DoubleBits, DoubleBits) -> DoubleBits>(
    d: &D,
    s: Seq<Bits>,
    ch: nat,
    lo: nat,
    n: nat,
) -> Sums
    decreases n,
{
    if n == 0 {
        Sums { l: WIDE_ZERO, r: WIDE_ZERO, ll: WIDE_ZERO, rr: WIDE_ZERO, lr: WIDE_ZERO }
    } else {
        let t = sums_of(d, s, ch, lo, (n - 1) as nat);
        let l = widened(d, s[((lo + n - 1) * ch) as int]);
        let r = widened(d, s[((lo + n - 1) * ch + 1) as int]);
        Sums {
            l: plus(d, t.l, l),
            r: plus(d, t.r, r),
            ll: plus(d, t.ll, times(d, l, l)),
            rr: plus(d, t.rr, times(d, r, r)),
            lr: plus(d, t.lr, times(d, l, r)),
        }
    }
}

fn sum_window<D: Fn(Operation, DoubleBits, DoubleBits) -> DoubleBits>(
    d: &D,
    s: &Vec<Bits>,
    ch: usize,
    lo: usize,
    n: usize,
) -> (t: Sums)
    requires
        is_arithmetic(d),
        ch >= 2,
        (lo + n) * ch <= s@.len(),
    ensures
        t == sums_of(d, s@, ch as nat, lo as nat, n as nat),
{
    let total: usize = s.len();
    let mut t: Sums = Sums { l: WIDE_ZERO, r: WIDE_ZERO, ll: WIDE_ZERO, rr: WIDE_ZERO, lr: WIDE_ZERO };
    let mut i: usize = 0;
    while i < n
        invariant
            is_arithmetic(d),
            ch >= 2,
            i <= n,
            (lo + n) * ch <= s@.len() == total,
            t == sums_of(d, s@, ch as nat, lo as nat, i as nat),
        decreases n - i,
    {
        assert((lo + i) * ch + 1 < (lo + n) * ch && lo + i <= (lo + i) * ch) by (nonlinear_arith)
            requires
                ch >= 2,
                0 <= lo,
                0 <= i < n,
        ;
        let at: usize = (lo + i) * ch;
        let l: DoubleBits = compute(d, Operation::FromSingle, s[at] as u64, 0);
        let r: DoubleBits = compute(d, Operation::FromSingle, s[at + 1] as u64, 0);
        let ll: DoubleBits = compute(d, Operation::Times, l, l);
        let rr: DoubleBits = compute(d, Operation::Times, r, r);
        let lr: DoubleBits = compute(d, Operation::Times, l, r);
        t = Sums {
            l: compute(d, Operation::Plus, t.l, l),
            r: compute(d, Operation::Plus, t.r, r),
            ll: compute(d, Operation::Plus, t.ll, ll),
            rr: compute(d, Operation::Plus, t.rr, rr),
            lr: compute(d, Operation::Plus, t.lr, lr),
        };
        i = i + 1;
    }
    t
}

/// The mean of a square less the square of the mean, but not below zero.
pub open spec fn variance<D: Fn(Operation, DoubleBits, DoubleBits) -> DoubleBits>(
    d: &D,
    squares: DoubleBits,
    sum: DoubleBits,
    n: DoubleBits,
) -> DoubleBits {
    let mean = over(d, sum, n);
    wide_max(minus(d, over(d, squares, n), times(d, mean, mean)), WIDE_ZERO)
}

/// The product of the deviations of the channels.
pub open spec fn deviations<D: Fn(Operation, DoubleBits, DoubleBits) -> DoubleBits>(
    d: &D,
    t: Sums,
    n: DoubleBits,
) -> DoubleBits {
    result(
        d,
        Operation::SquareRoot,
        times(d, variance(d, t.ll, t.l, n), variance(d, t.rr, t.r, n)),
        0,
    )
}

/// `c` is the correlation of a window: the covariance as a share of the
/// deviations, from minus one to one. A window that hardly moves has none.
pub open spec fn is_window_correlation<D: Fn(Operation, DoubleBits, DoubleBits) -> DoubleBits>(
    d: &D,
    t: Sums,
    n: DoubleBits,
    c: Bits,
) -> bool {
    let covariance = minus(d, over(d, t.lr, n), times(d, over(d, t.l, n), over(d, t.r, n)));
    if below(WIDE_TINY, deviations(d, t, n)) {
        narrowed(in_unit(over(d, covariance, deviations(d, t, n))), c)
    } else {
        c == 0
    }
}

fn spread<D: Fn(Operation, DoubleBits, DoubleBits) -> DoubleBits>(
    d: &D,
    squares: DoubleBits,
    sum: DoubleBits,
    n: DoubleBits,
) -> (v: DoubleBits)
    requires
        is_arithmetic(d),
    ensures
        v == variance(d, squares, sum, n),
{
    let mean: DoubleBits = compute(d, Operation::Over, sum, n);
    let square: DoubleBits = compute(d, Operation::Times, mean, mean);
    let of_squares: DoubleBits = compute(d, Operation::Over, squares, n);
    wide_larger(compute(d, Operation::Minus, of_squares, square), WIDE_ZERO)
}

fn correlate_window<D: Fn(Operation, DoubleBits, DoubleBits) -> DoubleBits>(
    d: &D,
    t: Sums,
    n: DoubleBits,
) -> (c: Bits)
    requires
        is_arithmetic(d),
    ensures
        is_window_correlation(d, t, n, c),
{
    let mean_l: DoubleBits = compute(d, Operation::Over, t.l, n);
    let mean_r: DoubleBits = compute(d, Operation::Over, t.r, n);
    let mean_lr: DoubleBits = compute(d, Operation::Over, t.lr, n);
    let means: DoubleBits = compute(d, Operation::Times, mean_l, mean_r);
    let covariance: DoubleBits = compute(d, Operation::Minus, mean_lr, means);
    let left: DoubleBits = spread(d, t.ll, t.l, n);
    let right: DoubleBits = spread(d, t.rr, t.r, n);
    let both: DoubleBits = compute(d, Operation::Times, left, right);
    let by: DoubleBits = compute(d, Operation::SquareRoot, both, 0);
    if is_below(WIDE_TINY, by) {
        narrow(to_unit(compute(d, Operation::Over, covariance, by)))
    } else {
        0
    }
}

/// The mean energy of the two channels over a window.
pub open spec fn energy_of<D: Fn(Operation, DoubleBits, DoubleBits) -> DoubleBits>(
    d: &D,
    t: Sums,
    n: DoubleBits,
) -> DoubleBits {
    over(d, plus(d, t.ll, t.rr), times(d, WIDE_TWO, n))
}

/// The sums over window `p`.
pub open spec fn window_sums<D: Fn(Operation, DoubleBits, DoubleBits) -> DoubleBits>(
    d: &D,
    s: Seq<Bits>,
    ch: nat,
    plan: Layout,
    p: int,
) -> Sums {
    sums_of(d, s, ch, (p * plan.hop) as nat, plan.window as nat)
}

/// The frames of a window, as a double.
pub open spec fn frames_of<D: Fn(Operation, DoubleBits, DoubleBits) -> DoubleBits>(
    d: &D,
    plan: Layout,
) -> DoubleBits {
    result(d, Operation::FromWhole, plan.window as u64, 0)
}

/// The energies of all windows.
pub open spec fn energies<D: Fn(Operation, DoubleBits, DoubleBits) -> DoubleBits>(
    d: &D,
    s: Seq<Bits>,
    ch: nat,
    plan: Layout,
) -> Seq<DoubleBits> {
    Seq::new(
        plan.count as nat,
        |p: int| energy_of(d, window_sums(d, s, ch, plan, p), frames_of(d, plan)),
    )
}

/// The greatest of the first `k` energies.
pub open spec fn loudest(e: Seq<DoubleBits>, k: int) -> DoubleBits
    decreases k,
{
    if k <= 0 {
        WIDE_ZERO
    } else {
        wide_max(loudest(e, k - 1), e[k - 1])
    }
}

/// `w` is the weight of a window: how far its level against the loudest window
/// has faded in.
pub open spec fn is_weight<D: Fn(Operation, DoubleBits, DoubleBits) -> DoubleBits>(
    d: &D,
    energy: DoubleBits,
    peak: DoubleBits,
    w: Bits,
) -> bool {
    exists|db: Bits| #[trigger]
        narrowed(
            times(
                d,
                WIDE_TEN,
                result(d, Operation::Log10, wide_max(over(d, energy, peak), WIDE_LEAST), 0),
            ),
            db,
        ) && w == faded(db, WINDOW_FLOOR, WINDOW_FADE)
}

fn weigh<D: Fn(Operation, DoubleBits, DoubleBits) -> DoubleBits>(
    d: &D,
    energy: DoubleBits,
    peak: DoubleBits,
) -> (w: Bits)
    requires
        is_arithmetic(d),
    ensures
        is_weight(d, energy, peak, w),
{
    let share: DoubleBits = wide_larger(compute(d, Operation::Over, energy, peak), WIDE_LEAST);
    let log: DoubleBits = compute(d, Operation::Log10, share, 0);
    let level: DoubleBits = compute(d, Operation::Times, WIDE_TEN, log);
    let db: Bits = narrow(level);
    proof {
        let log_of = result(d, Operation::Log10, wide_max(over(d, energy, peak), WIDE_LEAST), 0);
        assert(level == times(d, WIDE_TEN, log_of));
        assert(narrowed(times(d, WIDE_TEN, log_of), db));
    }
    fade_weight(db, WINDOW_FLOOR, WINDOW_FADE)
}

/// `out` is the timeline of a file: for each window its correlation and its
/// weight. Mono and short files have none.
pub open spec fn is_timeline<D: Fn(Operation, DoubleBits, DoubleBits) -> DoubleBits>(
    d: &D,
    s: Seq<Bits>,
    ch: nat,
    rate: u32,
    out: CorrTimeline,
) -> bool {
    match layout_of(s.len(), ch, rate) {
        None => out.points@.len() == 0 && out.hop_secs == 0,
        Some(plan) => {
            let e = energies(d, s, ch, plan);
            let peak = wide_max(loudest(e, e.len() as int), WIDE_LEAST);
            &&& out.hop_secs == fdiv(number(plan.hop as nat), number(rate as nat))
            &&& out.points@.len() == plan.count
            &&& forall|p: int|
                0 <= p < plan.count ==> {
                    &&& is_window_correlation(
                        d,
                        window_sums(d, s, ch, plan, p),
                        frames_of(d, plan),
                        (#[trigger] out.points@[p]).0,
                    )
                    &&& is_weight(d, e[p], peak, out.points@[p].1)
                }
        },
    }
}

/// What was measured of each window: its correlation and its energy.
fn measure<D: Fn(Operation, DoubleBits, DoubleBits) -> DoubleBits>(
    d: &D,
    samples: &Vec<Bits>,
    channels: usize,
    plan: Layout,
) -> (out: Vec<(Bits, DoubleBits)>)
    requires
        is_arithmetic(d),
        channels >= 2,
        plan.count > 0,
        (plan.count - 1) * plan.hop + plan.window <= samples@.len() / (channels as nat),
    ensures
        out@.len() == plan.count,
        forall|p: int|
            0 <= p < plan.count ==> {
                &&& is_window_correlation(
                    d,
                    window_sums(d, samples@, channels as nat, plan, p),
                    frames_of(d, plan),
                    (#[trigger] out@[p]).0,
                )
                &&& out@[p].1 == energies(d, samples@, channels as nat, plan)[p]
            },
{
    let n: DoubleBits = compute(d, Operation::FromWhole, plan.window as u64, 0);
    let twice: DoubleBits = compute(d, Operation::Times, WIDE_TWO, n);
    let total: usize = samples.len();
    let mut out: Vec<(Bits, DoubleBits)> = Vec::new();
    let mut p: usize = 0;
    while p < plan.count
        invariant
            total == samples@.len(),
            is_arithmetic(d),
            channels >= 2,
            (plan.count - 1) * plan.hop + plan.window <= samples@.len() / (channels as nat),
            n == frames_of(d, plan),
            twice == times(d, WIDE_TWO, n),
            p <= plan.count,
            out@.len() == p,
            forall|q: int|
                0 <= q < p ==> {
                    &&& is_window_correlation(
                        d,
                        window_sums(d, samples@, channels as nat, plan, q),
                        n,
                        (#[trigger] out@[q]).0,
                    )
                    &&& out@[q].1 == energies(d, samples@, channels as nat, plan)[q]
                },
        decreases plan.count - p,
    {
        let ghost frames = (samples@.len() / (channels as nat)) as int;
        proof {
            vstd::arithmetic::div_mod::lemma_fundamental_div_mod(samples@.len() as int, channels as int);
            vstd::arithmetic::div_mod::lemma_mod_bound(samples@.len() as int, channels as int);
            assert(p * plan.hop <= (plan.count - 1) * plan.hop && 0 <= p * plan.hop) by (nonlinear_arith)
                requires
                    0 <= p <= plan.count - 1,
                    0 <= plan.hop,
            ;
            assert((p * plan.hop + plan.window) * channels <= samples@.len() && frames <= samples@.len())
                by (nonlinear_arith)
                requires
                    p * plan.hop + plan.window <= frames,
                    samples@.len() >= channels * frames,
                    channels >= 1,
                    frames >= 0,
            ;
        }
        let t: Sums = sum_window(d, samples, channels, p * plan.hop, plan.window);
        let c: Bits = correlate_window(d, t, n);
        let both: DoubleBits = compute(d, Operation::Plus, t.ll, t.rr);
        let e: DoubleBits = compute(d, Operation::Over, both, twice);
        out.push((c, e));
        p = p + 1;
    }
    out
}

/// The correlation of a file over its time. The means are taken out, so that an
/// offset of one channel does not pass for correlation.
pub fn correlation_timeline<D: Fn(Operation, DoubleBits, DoubleBits) -> DoubleBits>(
    d: &D,
    samples: &Vec<Bits>,
    channels: usize,
    sample_rate: u32,
) -> (out: CorrTimeline)
    requires
        is_arithmetic(d),
    ensures
        is_timeline(d, samples@, channels as nat, sample_rate, out),
{
    match timeline_layout(samples.len(), channels, sample_rate) {
        None => CorrTimeline { points: Vec::new(), hop_secs: 0 },
        Some(plan) => {
            let raw: Vec<(Bits, DoubleBits)> = measure(d, samples, channels, plan);
            let ghost e = energies(d, samples@, channels as nat, plan);
            let mut top: DoubleBits = WIDE_ZERO;
            let mut i: usize = 0;
            while i < raw.len()
                invariant
                    i <= raw@.len() == e.len(),
                    forall|p: int| 0 <= p < raw@.len() ==> (#[trigger] raw@[p]).1 == e[p],
                    top == loudest(e, i as int),
                decreases raw@.len() - i,
            {
                top = wide_larger(top, raw[i].1);
                i = i + 1;
            }
            let peak: DoubleBits = wide_larger(top, WIDE_LEAST);
            let mut points: Vec<(Bits, Bits)> = Vec::new();
            let mut k: usize = 0;
            while k < raw.len()
                invariant
                    is_arithmetic(d),
                    k <= raw@.len() == e.len(),
                    points@.len() == k,
                    forall|p: int| 0 <= p < raw@.len() ==> (#[trigger] raw@[p]).1 == e[p],
                    forall|p: int|
                        0 <= p < k ==> (#[trigger] points@[p]).0 == raw@[p].0 && is_weight(
                            d,
                            e[p],
                            peak,
                            points@[p].1,
                        ),
                decreases raw@.len() - k,
            {
                let w: Bits = weigh(d, raw[k].1, peak);
                points.push((raw[k].0, w));
                k = k + 1;
            }
            CorrTimeline {
                points,
                hop_secs: divide_by(from_whole(plan.hop as u64), from_whole(sample_rate as u64)),
            }
        },
    }
}

/// The correlation of a window that is a number lies between minus one and one,
/// whatever the arithmetic gives.
pub proof fn law_window_correlation_in_scale<D: Fn(Operation, DoubleBits, DoubleBits) -> DoubleBits>(
    d: &D,
    t: Sums,
    n: DoubleBits,
    c: Bits,
)
    requires
        is_window_correlation(d, t, n, c),
        !crate::single::is_nan(c),
    ensures
        at_most(MINUS_ONE, c),
        at_most(c, ONE),
{
    let one: Bits = ONE;
    let minus_one: Bits = MINUS_ONE;
    lemma_zero(0);
    assert(unsigned(one) == one && unsigned(minus_one) == one);
    lemma_magnitude_order(c, one);
    lemma_magnitude_order(one, minus_one);
    if below(WIDE_TINY, deviations(d, t, n)) {
        let covariance = minus(d, over(d, t.lr, n), times(d, over(d, t.l, n), over(d, t.r, n)));
        let x = in_unit(over(d, covariance, deviations(d, t, n)));
        assert(double_unsigned(WIDE_ONE) == WIDE_ONE && double_unsigned(WIDE_MINUS_ONE) == WIDE_ONE);
        assert(double_unsigned(x) <= WIDE_ONE);
        lemma_at_most_one(x);
        lemma_pow2_adds(23, 126);
        lemma2_to64();
        assert(magnitude(one) == pow2(149)) by {
            assert(significand(one) == 0x80_0000 && last_digit(one) == 126);
        }
        lemma_pow2_pos(925);
        lemma_pow2_adds(149, 925);
        lemma_ratio_between(double_magnitude(x), pow2(925), pow2(149), 24);
        lemma_pattern_exact(one);
        lemma_infinity();
        lemma_pow2_strictly_increases(149, 277);
    }
}

/// A double whose pattern does not exceed that of one is no greater than one.
proof fn lemma_at_most_one(x: DoubleBits)
    requires
        double_unsigned(x) <= WIDE_ONE,
    ensures
        double_magnitude(x) <= pow2(1074),
{
    let e = double_unsigned(x) / 0x10_0000_0000_0000;
    let f = double_unsigned(x) % 0x10_0000_0000_0000;
    lemma2_to64();
    lemma2_to64_rest();
    lemma_pow2_adds(52, 1022);
    lemma_pow2_adds(53, 1021);
    if e == 0 {
        lemma_pow2_strictly_increases(52, 1074);
    } else if e <= 1022 {
        if e < 1022 {
            lemma_pow2_strictly_increases((e - 1) as nat, 1021);
        }
        assert((f + 0x10_0000_0000_0000) * pow2((e - 1) as nat) <= pow2(53) * pow2(1021)) by (nonlinear_arith)
            requires
                f + 0x10_0000_0000_0000 <= pow2(53),
                pow2((e - 1) as nat) <= pow2(1021),
        ;
    } else {
        assert(e == 1023 && f == 0);
    }
}

} // verus!
