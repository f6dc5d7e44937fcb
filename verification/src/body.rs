//! The body of the waveform, zoomed out: one column for every pixel, smoothed
//! where the columns are dense, with caps where clipping took something away.

use vstd::prelude::*;
use crate::arith::{number, from_whole};
use crate::columns::{Extremes, Quiet, Span, CLIPPED};
use crate::columns::{body, cap_above, cap_below, column_body, column_extremes, column_start, columns, first_of_column};
use crate::columns::{half_window, lower_cap, smooth, smoothed_at, smoothing_reach, upper_cap};
use crate::functions::{Function, is_total, gives, evaluate};
use crate::scalar::{fadd, fsub, fmul, fdiv, fmax, fmin, negated};
use crate::scalar::{add_to, subtract, multiply, divide_by, larger, smaller, neg};
use crate::single::{Bits, ONE, TWO, HALF, is_nan, at_most, less};
use crate::waveform::Rect;

verus! {

/// The width of the bell, in columns of its reach.
pub const BELL_WIDTH: Bits = 0x3f19_999a;
/// Layers of a column; each next one is inset further.
pub const LAYERS: usize = 11;
/// The part of a column by which the innermost layer would be inset.
pub const DEEPEST: Bits = 0x3ee6_6666;

// ---- The weights ------------------------------------------------------------

/// The exponent of weight `j`: minus the square of the distance from the
/// middle, in widths.
pub open spec fn bell_exponent(j: nat, reach: nat) -> Bits {
    let d = fsub(number(j), number(reach));
    let sigma = fmul(number(reach), BELL_WIDTH);
    fdiv(fmul(negated(d), d), fmul(fmul(TWO, sigma), sigma))
}

/// The sum of the first `n` weights.
pub open spec fn total(w: Seq<Bits>, n: int) -> Bits
    decreases n,
{
    if n <= 0 {
        0
    } else {
        fadd(total(w, n - 1), w[n - 1])
    }
}

/// `w` is the bell before it is scaled.
pub open spec fn is_raw_bell<M: Fn(Function, Bits) -> Bits>(m: &M, reach: nat, w: Seq<Bits>) -> bool {
    &&& w.len() == 2 * reach + 1
    &&& forall|j: int|
        0 <= j < w.len() ==> gives(m, Function::Exp, bell_exponent(j as nat, reach), #[trigger] w[j])
}

/// The weights, each over their sum.
pub open spec fn scaled(w: Seq<Bits>) -> Seq<Bits> {
    Seq::new(w.len(), |j: int| fdiv(w[j], total(w, w.len() as int)))
}

/// `k` is the bell of weights over `reach` columns on each side.
pub open spec fn is_bell<M: Fn(Function, Bits) -> Bits>(m: &M, reach: nat, k: Seq<Bits>) -> bool {
    if reach == 0 {
        k == seq![ONE]
    } else {
        exists|w: Seq<Bits>| #[trigger] is_raw_bell(m, reach, w) && k == scaled(w)
    }
}

/// The bell of weights over `reach` columns on each side.
pub fn bell<M: Fn(Function, Bits) -> Bits>(m: &M, reach: usize) -> (k: Vec<Bits>)
    requires
        is_total(m),
        reach < 0x1000,
    ensures
        k@.len() == 2 * reach + 1,
        is_bell(m, reach as nat, k@),
{
    if reach == 0 {
        let one: Vec<Bits> = vec![ONE];
        assert(one@ == seq![ONE]);
        return one;
    }
    let n: usize = 2 * reach + 1;
    let middle: Bits = from_whole(reach as u64);
    let sigma: Bits = multiply(middle, BELL_WIDTH);
    let wide: Bits = multiply(multiply(TWO, sigma), sigma);
    let mut w: Vec<Bits> = Vec::new();
    let mut sum: Bits = 0;
    let mut j: usize = 0;
    while j < n
        invariant
            is_total(m),
            n == 2 * reach + 1,
            middle == number(reach as nat),
            sigma == fmul(number(reach as nat), BELL_WIDTH),
            wide == fmul(fmul(TWO, sigma), sigma),
            j <= n,
            w@.len() == j,
            sum == total(w@, j as int),
            forall|i: int|
                0 <= i < j ==> gives(
                    m,
                    Function::Exp,
                    bell_exponent(i as nat, reach as nat),
                    #[trigger] w@[i],
                ),
        decreases n - j,
    {
        let d: Bits = subtract(from_whole(j as u64), middle);
        let v: Bits = evaluate(m, Function::Exp, divide_by(multiply(neg(d), d), wide));
        let ghost before = w@;
        w.push(v);
        proof {
            lemma_total_prefix(before, w@, j as int);
        }
        sum = add_to(sum, v);
        j = j + 1;
    }
    let mut k: Vec<Bits> = Vec::new();
    let mut i: usize = 0;
    while i < n
        invariant
            n == w@.len(),
            sum == total(w@, n as int),
            i <= n,
            k@ == scaled(w@).take(i as int),
        decreases n - i,
    {
        k.push(divide_by(w[i], sum));
        i = i + 1;
    }
    proof {
        assert(k@ == scaled(w@));
        assert(is_raw_bell(m, reach as nat, w@));
    }
    k
}

proof fn lemma_total_prefix(a: Seq<Bits>, b: Seq<Bits>, n: int)
    requires
        n <= a.len() <= b.len(),
        forall|i: int| 0 <= i < n ==> a[i] == b[i],
    ensures
        total(a, n) == total(b, n),
    decreases n,
{
    if n > 0 {
        lemma_total_prefix(a, b, n - 1);
    }
}

// ---- Columns ----------------------------------------------------------------

/// One pixel column: the processed sound, and what the input has beyond it.
#[derive(Clone, Copy, PartialEq, Eq, Debug, Structural)]
pub struct Column {
    pub body: Span,
    pub above: Option<Span>,
    pub below: Option<Span>,
}

/// The peaks and the troughs of columns.
pub open spec fn peaks(list: Seq<Extremes>) -> Seq<Bits> {
    Seq::new(list.len(), |i: int| list[i].hi)
}

pub open spec fn troughs(list: Seq<Extremes>) -> Seq<Bits> {
    Seq::new(list.len(), |i: int| list[i].lo)
}

/// The edge of column `px`: its own extreme, or the smoothed one where that
/// lies farther out.
pub open spec fn upper_edge(outs: Seq<Extremes>, kernel: Seq<Bits>, reach: nat, px: int) -> Bits {
    fmax(
        if reach == 0 {
            outs[px].hi
        } else {
            smoothed_at(peaks(outs), kernel, reach, px, true)
        },
        outs[px].hi,
    )
}

pub open spec fn lower_edge(outs: Seq<Extremes>, kernel: Seq<Bits>, reach: nat, px: int) -> Bits {
    fmin(
        if reach == 0 {
            outs[px].lo
        } else {
            smoothed_at(troughs(outs), kernel, reach, px, false)
        },
        outs[px].lo,
    )
}

/// A column with these edges, over that input.
pub open spec fn column_of(input: Extremes, hi: Bits, lo: Bits, hidden: bool, area: Rect) -> Column {
    let mid = fadd(area.y, fmul(area.h, HALF));
    let half = fmul(area.h, HALF);
    let span = body(hi, lo, mid, half);
    Column {
        body: span,
        above: if hidden {
            None
        } else {
            cap_above(input.hi, hi, span.top, mid, half, area.y)
        },
        below: if hidden {
            None
        } else {
            cap_below(input.lo, lo, span.bottom, mid, half, fadd(area.y, area.h))
        },
    }
}

/// How many columns on each side are smoothed together.
pub open spec fn reach_of(start: nat, end: nat, count: nat) -> nat {
    smoothing_reach(fdiv(number((end - start) as nat), number(count))) as nat
}

/// The columns of the frames from `start` on up to `end`, with that kernel.
pub open spec fn columns_with(
    input: Seq<Bits>,
    output: Seq<Bits>,
    start: nat,
    end: nat,
    count: nat,
    area: Rect,
    quiet: &Quiet,
    caps: bool,
    kernel: Seq<Bits>,
) -> Seq<Column> {
    let ins = column_extremes(input, start, end, count);
    let outs = column_extremes(output, start, end, count);
    let reach = reach_of(start, end, count);
    Seq::new(
        count,
        |px: int|
            column_of(
                ins[px],
                upper_edge(outs, kernel, reach, px),
                lower_edge(outs, kernel, reach, px),
                !caps || quiet.covers(column_start(px as nat, count, start, end)),
                area,
            ),
    )
}

/// `list` is the body of the waveform.
pub open spec fn is_body<M: Fn(Function, Bits) -> Bits>(
    m: &M,
    input: Seq<Bits>,
    output: Seq<Bits>,
    start: nat,
    end: nat,
    count: nat,
    area: Rect,
    quiet: &Quiet,
    caps: bool,
    list: Seq<Column>,
) -> bool {
    exists|kernel: Seq<Bits>| #[trigger]
        is_bell(m, reach_of(start, end, count), kernel) && list == columns_with(
            input,
            output,
            start,
            end,
            count,
            area,
            quiet,
            caps,
            kernel,
        )
}

fn split_extremes(list: &Vec<Extremes>) -> (r: (Vec<Bits>, Vec<Bits>))
    ensures
        r.0@ == peaks(list@),
        r.1@ == troughs(list@),
{
    let mut hi: Vec<Bits> = Vec::new();
    let mut lo: Vec<Bits> = Vec::new();
    let mut i: usize = 0;
    while i < list.len()
        invariant
            i <= list@.len(),
            hi@ == peaks(list@).take(i as int),
            lo@ == troughs(list@).take(i as int),
        decreases list@.len() - i,
    {
        hi.push(list[i].hi);
        lo.push(list[i].lo);
        i = i + 1;
    }
    assert(hi@ == peaks(list@));
    assert(lo@ == troughs(list@));
    (hi, lo)
}

fn draw_column(input: Extremes, hi: Bits, lo: Bits, hidden: bool, area: &Rect) -> (c: Column)
    ensures
        c == column_of(input, hi, lo, hidden, *area),
{
    let mid: Bits = add_to(area.y, multiply(area.h, HALF));
    let half: Bits = multiply(area.h, HALF);
    let span: Span = column_body(hi, lo, mid, half);
    if hidden {
        return Column { body: span, above: None, below: None };
    }
    Column {
        body: span,
        above: upper_cap(input.hi, hi, span.top, mid, half, area.y),
        below: lower_cap(input.lo, lo, span.bottom, mid, half, add_to(area.y, area.h)),
    }
}

/// The body of the waveform, zoomed out: the extremes of the output in every
/// column, smoothed with their neighbours, and caps where the input goes
/// beyond. Caps are left out where the level was lowered on purpose, and all of
/// them unless `caps` is set.
pub fn draw_body<M: Fn(Function, Bits) -> Bits>(
    m: &M,
    input: &Vec<Bits>,
    output: &Vec<Bits>,
    start: usize,
    end: usize,
    count: usize,
    area: &Rect,
    quiet: &Quiet,
    caps: bool,
) -> (list: Vec<Column>)
    requires
        is_total(m),
        input@.len() == output@.len(),
        start < end <= output@.len(),
        count + 9 <= usize::MAX,
    ensures
        is_body(
            m,
            input@,
            output@,
            start as nat,
            end as nat,
            count as nat,
            *area,
            quiet,
            caps,
            list@,
        ),
{
    let ins: Vec<Extremes> = columns(input, start, end, count);
    let outs: Vec<Extremes> = columns(output, start, end, count);
    let density: Bits = divide_by(from_whole((end - start) as u64), from_whole(count as u64));
    let reach: usize = half_window(density);
    let kernel: Vec<Bits> = bell(m, reach);
    let (hi, lo): (Vec<Bits>, Vec<Bits>) = split_extremes(&outs);
    let soft_hi: Vec<Bits> = smooth(&hi, &kernel, reach, true);
    let soft_lo: Vec<Bits> = smooth(&lo, &kernel, reach, false);
    let ghost all = columns_with(
        input@,
        output@,
        start as nat,
        end as nat,
        count as nat,
        *area,
        quiet,
        caps,
        kernel@,
    );
    let mut list: Vec<Column> = Vec::new();
    let mut px: usize = 0;
    while px < count
        invariant
            start < end,
            px <= count,
            ins@ == column_extremes(input@, start as nat, end as nat, count as nat),
            outs@ == column_extremes(output@, start as nat, end as nat, count as nat),
            ins@.len() == count,
            outs@.len() == count,
            hi@ == peaks(outs@),
            lo@ == troughs(outs@),
            reach as nat == reach_of(start as nat, end as nat, count as nat),
            soft_hi@.len() == count,
            soft_lo@.len() == count,
            reach == 0 ==> soft_hi@ == hi@ && soft_lo@ == lo@,
            reach > 0 ==> soft_hi@ == Seq::new(
                hi@.len(),
                |i: int| smoothed_at(hi@, kernel@, reach as nat, i, true),
            ),
            reach > 0 ==> soft_lo@ == Seq::new(
                lo@.len(),
                |i: int| smoothed_at(lo@, kernel@, reach as nat, i, false),
            ),
            all == columns_with(
                input@,
                output@,
                start as nat,
                end as nat,
                count as nat,
                *area,
                quiet,
                caps,
                kernel@,
            ),
            list@ == all.take(px as int),
        decreases count - px,
    {
        let top: Bits = larger(soft_hi[px], outs[px].hi);
        let bottom: Bits = smaller(soft_lo[px], outs[px].lo);
        let frame: usize = first_of_column(px as u64, count, start, end);
        let hidden: bool = !caps || quiet.hides(frame);
        let c: Column = draw_column(ins[px], top, bottom, hidden, area);
        proof {
            assert(top == upper_edge(outs@, kernel@, reach as nat, px as int));
            assert(bottom == lower_edge(outs@, kernel@, reach as nat, px as int));
            assert(c == all[px as int]);
        }
        list.push(c);
        px = px + 1;
    }
    proof {
        assert(list@ == all);
    }
    list
}

// ---- Layers -----------------------------------------------------------------

/// Layer `i` of a column: its top and its height. The column is at least a
/// pixel high.
pub open spec fn layer(span: Span, i: nat) -> (Bits, Bits) {
    let tall = fmax(fsub(span.bottom, span.top), ONE);
    let inset = fmul(fmul(tall, DEEPEST), fdiv(number(i), number(LAYERS as nat)));
    (fadd(span.top, inset), fmax(fsub(tall, fmul(TWO, inset)), ONE))
}

/// The layers of a column, from the outermost on.
pub fn layers(span: &Span) -> (list: Vec<(Bits, Bits)>)
    ensures
        list@ == Seq::new(LAYERS as nat, |i: int| layer(*span, i as nat)),
{
    let tall: Bits = larger(subtract(span.bottom, span.top), ONE);
    let mut list: Vec<(Bits, Bits)> = Vec::new();
    let mut i: usize = 0;
    while i < LAYERS
        invariant
            i <= LAYERS,
            tall == fmax(fsub(span.bottom, span.top), ONE),
            list@ == Seq::new(i as nat, |k: int| layer(*span, k as nat)),
        decreases LAYERS - i,
    {
        let part: Bits = divide_by(from_whole(i as u64), from_whole(LAYERS as u64));
        let inset: Bits = multiply(multiply(tall, DEEPEST), part);
        list.push((add_to(span.top, inset), larger(subtract(tall, multiply(TWO, inset)), ONE)));
        i = i + 1;
    }
    list
}

// ---- Laws -------------------------------------------------------------------

/// Smoothing never hides a peak: the edges of a column reach at least as far
/// out as the samples in it.
pub proof fn law_peaks_are_kept(outs: Seq<Extremes>, kernel: Seq<Bits>, reach: nat, px: int)
    requires
        !is_nan(outs[px].hi),
        !is_nan(outs[px].lo),
    ensures
        at_most(outs[px].hi, upper_edge(outs, kernel, reach, px)),
        at_most(lower_edge(outs, kernel, reach, px), outs[px].lo),
{
}

/// Where the input goes no farther than the output there is no cap.
pub proof fn law_no_cap_without_clipping(input: Extremes, hi: Bits, lo: Bits, hidden: bool, area: Rect)
    requires
        !less(CLIPPED, fsub(input.hi, hi)),
        !less(CLIPPED, fsub(lo, input.lo)),
    ensures
        column_of(input, hi, lo, hidden, area).above is None,
        column_of(input, hi, lo, hidden, area).below is None,
{
}

} // verus!
