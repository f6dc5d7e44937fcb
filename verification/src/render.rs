//! Rendering: the processing chain of every zone.
//!
//! A sample gets the zone's offset, passes the DC blocker if the zone has one,
//! is amplified, sent through the clipper, amplified again, and faded. Zones
//! that ask for it are clipped at a multiple of the sample rate.

use vstd::prelude::*;
use vstd::arithmetic::div_mod::*;
use vstd::arithmetic::mul::*;
use crate::arith::{number, from_whole};
use crate::dsp::{ClipperType, is_amplitude, argument_at, in_ceilings, shaped, argument, curve_argument, db_to_amp, shape};
use crate::functions::{Function, is_total, is_single_valued, gives, evaluate};
use crate::oversample::{Oversampler, is_factor};
use crate::plan::{ZonePlan, FadeGain, fade_of, fade_at, tiles, planned, zone_start, zone_end, law_plan_tiles, render_plan};
use crate::single::{Bits, ONE, clamped, clamp};
use crate::scalar::{fadd, fsub, fmul, fdiv, fmin};
use crate::scalar::{add_to, subtract, multiply, divide_by, smaller};
use crate::zones::{ZoneMap, ZoneParams};

verus! {

/// Minus a full turn.
pub const MINUS_TURN: Bits = 0xc0c9_0fdb;
/// The lowest and the highest corner of a DC blocker, in hertz.
pub const LOWEST_CORNER: Bits = 0x3f80_0000;
pub const HIGHEST_CORNER: Bits = 0x4348_0000;

/// The numbers of a zone's processing chain, as linear factors.
#[derive(Clone, Copy, PartialEq, Eq, Debug, Structural)]
pub struct Chain {
    pub dc_offset: Bits,
    pub dc_blocker: bool,
    /// The pole of the DC blocker.
    pub pole: Bits,
    pub in_gain: Bits,
    pub ceiling: Bits,
    pub clipper: ClipperType,
    /// The clipper's function at its argument for one.
    pub f_one: Bits,
    pub out_gain: Bits,
}

/// The sample rate that filters are computed for: at least one.
pub open spec fn filter_rate(rate: u32) -> Bits {
    if rate == 0 {
        number(1)
    } else {
        number(rate as nat)
    }
}

/// What the exponential is applied to for the pole of a DC blocker.
pub open spec fn pole_argument(corner: Bits, rate: u32) -> Bits {
    fdiv(fmul(MINUS_TURN, clamped(corner, LOWEST_CORNER, HIGHEST_CORNER)), filter_rate(rate))
}

/// `c` is the chain of a zone at a sample rate. A ceiling above full scale
/// counts as full scale.
pub open spec fn is_chain<M: Fn(Function, Bits) -> Bits>(m: &M, z: ZoneParams, rate: u32, c: Chain) -> bool {
    &&& c.dc_offset == z.dc_offset
    &&& c.dc_blocker == z.dc_blocker_enabled
    &&& gives(m, Function::Exp, pole_argument(z.dc_blocker_hz, rate), c.pole)
    &&& is_amplitude(m, z.input_gain_db, c.in_gain)
    &&& is_amplitude(m, fmin(z.ceiling_db, 0), c.ceiling)
    &&& c.clipper == z.clipper
    &&& gives(m, z.clipper.needs(), argument_at(z.clipper, ONE), c.f_one)
    &&& is_amplitude(m, z.output_gain_db, c.out_gain)
}

/// The chain of a zone at a sample rate.
pub fn zone_chain<M: Fn(Function, Bits) -> Bits>(m: &M, z: &ZoneParams, rate: u32) -> (c: Chain)
    requires
        is_total(m),
    ensures
        is_chain(m, *z, rate, c),
{
    proof {
        lemma_corners();
    }
    let corner: Bits = clamp(z.dc_blocker_hz, LOWEST_CORNER, HIGHEST_CORNER);
    let fs: Bits = from_whole(
        if rate == 0 {
            1
        } else {
            rate as u64
        },
    );
    Chain {
        dc_offset: z.dc_offset,
        dc_blocker: z.dc_blocker_enabled,
        pole: evaluate(m, Function::Exp, divide_by(multiply(MINUS_TURN, corner), fs)),
        in_gain: db_to_amp(m, z.input_gain_db),
        ceiling: db_to_amp(m, smaller(z.ceiling_db, 0)),
        clipper: z.clipper,
        f_one: evaluate(m, z.clipper.function(), curve_argument(z.clipper, ONE)),
        out_gain: db_to_amp(m, z.output_gain_db),
    }
}

proof fn lemma_corners()
    ensures
        crate::single::at_most(LOWEST_CORNER, HIGHEST_CORNER),
{
    crate::single::lemma_pattern_order(LOWEST_CORNER, HIGHEST_CORNER);
}

/// `chains` are the chains of all zones.
pub open spec fn are_chains<M: Fn(Function, Bits) -> Bits>(
    m: &M,
    zones: Seq<ZoneParams>,
    rate: u32,
    chains: Seq<Chain>,
) -> bool {
    &&& chains.len() == zones.len()
    &&& forall|k: int| 0 <= k < zones.len() ==> is_chain(m, zones[k], rate, #[trigger] chains[k])
}

/// The chains of all zones.
pub fn zone_chains<M: Fn(Function, Bits) -> Bits>(m: &M, zones: &Vec<ZoneParams>, rate: u32) -> (chains: Vec<
    Chain,
>)
    requires
        is_total(m),
    ensures
        are_chains(m, zones@, rate, chains@),
{
    let mut chains: Vec<Chain> = Vec::new();
    let mut k: usize = 0;
    while k < zones.len()
        invariant
            is_total(m),
            k <= zones@.len(),
            chains@.len() == k,
            forall|j: int| 0 <= j < k ==> is_chain(m, zones@[j], rate, #[trigger] chains@[j]),
        decreases zones@.len() - k,
    {
        chains.push(zone_chain(m, &zones[k], rate));
        k = k + 1;
    }
    chains
}

// ---- Up to the clipper ------------------------------------------------------

/// Sample `i` of a zone with its offset. `from` is the zone's first sample.
pub open spec fn shifted(samples: Seq<Bits>, from: int, c: Chain, i: int) -> Bits {
    fadd(samples[from + i], c.dc_offset)
}

/// Sample `i` of a zone behind the DC blocker: the difference to the sample
/// before it in the same channel, and a part of what came out there. Nothing
/// comes before the zone.
pub open spec fn blocked(samples: Seq<Bits>, from: int, ch: int, c: Chain, i: int) -> Bits
    decreases i,
{
    if !c.dc_blocker {
        shifted(samples, from, c, i)
    } else if ch <= 0 || i < ch {
        fadd(fsub(shifted(samples, from, c, i), 0), fmul(c.pole, 0))
    } else {
        fadd(
            fsub(shifted(samples, from, c, i), shifted(samples, from, c, i - ch)),
            fmul(c.pole, blocked(samples, from, ch, c, i - ch)),
        )
    }
}

proof fn lemma_zone_fits(p: ZonePlan, ch: nat, frames: nat, len: nat)
    requires
        p.start <= p.end <= frames,
        frames * ch <= len,
    ensures
        0 <= p.start * ch <= p.end * ch <= len,
        (p.end - p.start) * ch == p.end * ch - p.start * ch,
{
    assert(p.start * ch <= p.end * ch && p.end * ch <= frames * ch && 0 <= p.start * ch) by (nonlinear_arith)
        requires
            0 <= p.start <= p.end <= frames,
            0 <= ch,
    ;
    assert((p.end - p.start) * ch == p.end * ch - p.start * ch) by (nonlinear_arith);
}

proof fn lemma_frames_fit(len: nat, ch: nat)
    requires
        ch > 0,
    ensures
        (len / ch) * ch <= len,
{
    lemma_fundamental_div_mod(len as int, ch as int);
    lemma_mod_bound(len as int, ch as int);
    lemma_mul_is_commutative((len / ch) as int, ch as int);
}

// ---- At the clipper ---------------------------------------------------------

/// What the clipper's function is applied to for a sample `s` in front of the
/// input gain.
pub open spec fn clipper_argument(c: Chain, s: Bits) -> Bits {
    argument_at(c.clipper, in_ceilings(fmul(s, c.in_gain), c.ceiling))
}

/// A sample behind the output gain. `f` is what the clipper's function gave.
pub open spec fn clipped(c: Chain, s: Bits, f: Bits) -> Bits {
    fmul(shaped(fmul(s, c.in_gain), c.ceiling, c.clipper, f, c.f_one), c.out_gain)
}

/// A sample `s` in front of the input gain leaves the output gain as `x`.
pub open spec fn passes<M: Fn(Function, Bits) -> Bits>(m: &M, c: Chain, s: Bits, x: Bits) -> bool {
    exists|f: Bits| #[trigger] gives(m, c.clipper.needs(), clipper_argument(c, s), f) && x == clipped(c, s, f)
}

/// Sends a sample through the input gain, the clipper and the output gain.
pub fn pass<M: Fn(Function, Bits) -> Bits>(m: &M, c: &Chain, s: Bits) -> (x: Bits)
    requires
        is_total(m),
    ensures
        passes(m, *c, s, x),
{
    let driven: Bits = multiply(s, c.in_gain);
    let f: Bits = evaluate(m, c.clipper.function(), argument(driven, c.ceiling, c.clipper));
    assert(gives(m, c.clipper.needs(), clipper_argument(*c, s), f));
    multiply(shape(driven, c.ceiling, c.clipper, f, c.f_one), c.out_gain)
}

// ---- Fades ------------------------------------------------------------------

/// The factor of the fades of a zone at a frame of it.
pub open spec fn fade_factor(p: ZonePlan, frame: nat) -> Bits {
    let g = fade_of(p, frame);
    let up = match g.rise {
        Some((n, d)) => fmul(ONE, fdiv(number(n as nat), number(d as nat))),
        None => ONE,
    };
    match g.fall {
        Some((n, d)) => fmul(up, fmin(fdiv(number(n as nat), number(d as nat)), ONE)),
        None => up,
    }
}

/// A clipped sample with output gain and fade.
pub open spec fn faded(v: Bits, p: ZonePlan, frame: nat) -> Bits {
    if p.fade_in_frames > 0 || p.fade_out_frames > 0 {
        fmul(v, fade_factor(p, frame))
    } else {
        v
    }
}

/// The factor of the fades of a zone at a frame of it.
pub fn fade_gain(p: &ZonePlan, frame: usize) -> (r: Bits)
    ensures
        r == fade_factor(*p, frame as nat),
{
    let g: FadeGain = fade_at(p, frame);
    let up: Bits = match g.rise {
        Some((n, d)) => multiply(ONE, divide_by(from_whole(n as u64), from_whole(d as u64))),
        None => ONE,
    };
    match g.fall {
        Some((n, d)) => multiply(
            up,
            smaller(divide_by(from_whole(n as u64), from_whole(d as u64)), ONE),
        ),
        None => up,
    }
}

/// Applies the fades of a zone to one sample of a frame.
pub fn fade_sample(v: Bits, p: &ZonePlan, frame: usize) -> (r: Bits)
    ensures
        r == faded(v, *p, frame as nat),
{
    if p.fade_in_frames > 0 || p.fade_out_frames > 0 {
        multiply(v, fade_gain(p, frame))
    } else {
        v
    }
}

// ---- A zone -----------------------------------------------------------------

/// Sample `i` of a zone, rendered as `o`.
pub open spec fn is_rendered<M: Fn(Function, Bits) -> Bits>(
    m: &M,
    samples: Seq<Bits>,
    ch: nat,
    p: ZonePlan,
    c: Chain,
    i: nat,
    o: Bits,
) -> bool {
    exists|x: Bits| #[trigger]
        passes(m, c, blocked(samples, p.start * ch, ch as int, c, i as int), x) && o == faded(x, p, i / ch)
}

/// A zone, rendered as `out`.
pub open spec fn is_rendered_zone<M: Fn(Function, Bits) -> Bits>(
    m: &M,
    samples: Seq<Bits>,
    ch: nat,
    p: ZonePlan,
    c: Chain,
    out: Seq<Bits>,
) -> bool {
    &&& out.len() == (p.end - p.start) * ch
    &&& forall|i: int|
        0 <= i < out.len() ==> is_rendered(m, samples, ch, p, c, i as nat, #[trigger] out[i])
}

/// Sample `i` of a zone behind the DC blocker. `behind` holds the samples that
/// came before it, behind the blocker.
fn block(samples: &Vec<Bits>, from: usize, ch: usize, c: &Chain, i: usize, behind: &Vec<Bits>) -> (y: Bits)
    requires
        ch > 0,
        from + i < samples@.len(),
        behind@.len() == i,
        i >= ch ==> behind@[i - ch] == blocked(samples@, from as int, ch as int, *c, i - ch),
    ensures
        y == blocked(samples@, from as int, ch as int, *c, i as int),
{
    let total: usize = samples.len();
    let s: Bits = add_to(samples[from + i], c.dc_offset);
    if !c.dc_blocker {
        s
    } else if i < ch {
        add_to(subtract(s, 0), multiply(c.pole, 0))
    } else {
        let before: Bits = add_to(samples[from + (i - ch)], c.dc_offset);
        add_to(subtract(s, before), multiply(c.pole, behind[i - ch]))
    }
}

/// Renders one zone.
pub fn render_zone<M: Fn(Function, Bits) -> Bits>(
    m: &M,
    samples: &Vec<Bits>,
    ch: usize,
    p: &ZonePlan,
    c: &Chain,
) -> (out: Vec<Bits>)
    requires
        is_total(m),
        ch > 0,
        p.start <= p.end,
        p.end * ch <= samples@.len(),
    ensures
        is_rendered_zone(m, samples@, ch as nat, *p, *c, out@),
{
    proof {
        lemma_zone_fits(*p, ch as nat, p.end as nat, samples@.len());
    }
    let total: usize = samples.len();
    let from: usize = p.start * ch;
    let n: usize = p.end * ch - from;
    let mut behind: Vec<Bits> = Vec::new();
    let mut out: Vec<Bits> = Vec::new();
    let mut i: usize = 0;
    while i < n
        invariant
            is_total(m),
            ch > 0,
            from == p.start * ch,
            n == (p.end - p.start) * ch,
            from + n <= samples@.len(),
            samples@.len() <= usize::MAX,
            i <= n,
            behind@.len() == i,
            out@.len() == i,
            forall|k: int|
                0 <= k < i ==> #[trigger] behind@[k] == blocked(
                    samples@,
                    from as int,
                    ch as int,
                    *c,
                    k,
                ),
            forall|k: int|
                0 <= k < i ==> is_rendered(m, samples@, ch as nat, *p, *c, k as nat, #[trigger] out@[k]),
        decreases n - i,
    {
        let y: Bits = block(samples, from, ch, c, i, &behind);
        behind.push(y);
        let x: Bits = pass(m, c, y);
        let o: Bits = fade_sample(x, p, i / ch);
        proof {
            assert(y == blocked(samples@, p.start * ch as nat, ch as int, *c, i as int));
            assert(passes(m, *c, blocked(samples@, p.start * ch as nat, ch as int, *c, i as int), x));
            assert(is_rendered(m, samples@, ch as nat, *p, *c, i as nat, o));
        }
        out.push(o);
        i = i + 1;
    }
    out
}

// ---- A zone, oversampled ----------------------------------------------------

/// One channel of a zone behind the DC blocker, as oversampling takes it.
pub open spec fn zone_channel(samples: Seq<Bits>, ch: nat, p: ZonePlan, c: Chain, channel: nat) -> Seq<Bits> {
    Seq::new(
        (p.end - p.start) as nat,
        |n: int| blocked(samples, p.start * ch, ch as int, c, n * ch + channel),
    )
}

/// Takes one channel of a zone, behind the DC blocker.
pub fn take_channel(samples: &Vec<Bits>, ch: usize, p: &ZonePlan, c: &Chain, channel: usize) -> (out: Vec<
    Bits,
>)
    requires
        channel < ch,
        p.start <= p.end,
        p.end * ch <= samples@.len(),
    ensures
        out@ == zone_channel(samples@, ch as nat, *p, *c, channel as nat),
{
    proof {
        lemma_zone_fits(*p, ch as nat, p.end as nat, samples@.len());
    }
    let total: usize = samples.len();
    let from: usize = p.start * ch;
    let frames: usize = p.end - p.start;
    let mut before: Bits = 0;
    let mut out: Vec<Bits> = Vec::new();
    let mut n: usize = 0;
    while n < frames
        invariant
            channel < ch,
            from == p.start * ch,
            frames == p.end - p.start,
            from + frames * ch <= samples@.len(),
            samples@.len() <= usize::MAX,
            n <= frames,
            n == 0 ==> before == 0,
            n > 0 ==> before == shifted(samples@, from as int, *c, (n - 1) * ch + channel),
            out@ =~= zone_channel(samples@, ch as nat, *p, *c, channel as nat).take(n as int),
        decreases frames - n,
    {
        let ghost i = n * ch + channel;
        proof {
            assert(i + 1 <= frames * ch && 0 <= n * ch) by (nonlinear_arith)
                requires
                    i == n * ch + channel,
                    n + 1 <= frames,
                    channel < ch,
            ;
            assert((n - 1) * ch + channel == i - ch) by (nonlinear_arith)
                requires
                    i == n * ch + channel,
            ;
            assert(n == 0 ==> n * ch == 0) by (nonlinear_arith);
            assert(n > 0 ==> n * ch >= ch) by (nonlinear_arith);
        }
        let s: Bits = add_to(samples[from + n * ch + channel], c.dc_offset);
        let y: Bits = if !c.dc_blocker {
            s
        } else if n == 0 {
            add_to(subtract(s, 0), multiply(c.pole, 0))
        } else {
            add_to(subtract(s, before), multiply(c.pole, out[n - 1]))
        };
        proof {
            assert(y == blocked(samples@, from as int, ch as int, *c, i as int));
        }
        before = s;
        out.push(y);
        n = n + 1;
    }
    out
}

/// One channel of a zone, clipped at the higher rate and brought back as `out`.
pub open spec fn is_processed_channel<M: Fn(Function, Bits) -> Bits>(
    m: &M,
    os: Oversampler,
    c: Chain,
    input: Seq<Bits>,
    out: Seq<Bits>,
) -> bool {
    exists|high: Seq<Bits>|
        {
            &&& high.len() == os.raised(input).len()
            &&& forall|i: int| 0 <= i < high.len() ==> passes(m, c, os.raised(input)[i], #[trigger] high[i])
            &&& out == #[trigger] os.lowered(high, input.len())
        }
}

/// The factor of a frame of a zone whose channels were oversampled.
pub open spec fn frame_factor(p: ZonePlan, frame: nat) -> Bits {
    if p.fade_in_frames > 0 || p.fade_out_frames > 0 {
        fade_factor(p, frame)
    } else {
        ONE
    }
}

/// The channels of a zone, faded and woven together frame by frame.
pub open spec fn woven(channels: Seq<Vec<Bits>>, p: ZonePlan) -> Seq<Bits> {
    Seq::new(
        ((p.end - p.start) * channels.len()) as nat,
        |i: int|
            {
                let n = i / channels.len() as int;
                fmul(channels[i % channels.len() as int]@[n], frame_factor(p, n as nat))
            },
    )
}

/// Fades the channels of a zone and weaves them together frame by frame.
pub fn weave(channels: &Vec<Vec<Bits>>, p: &ZonePlan) -> (out: Vec<Bits>)
    requires
        p.start <= p.end,
        forall|c: int|
            0 <= c < channels@.len() ==> (#[trigger] channels@[c])@.len() == p.end - p.start,
    ensures
        out@ == woven(channels@, *p),
{
    let frames: usize = p.end - p.start;
    let ch: usize = channels.len();
    let mut out: Vec<Bits> = Vec::new();
    let mut n: usize = 0;
    assert(0 * ch == 0);
    while n < frames
        invariant
            frames == p.end - p.start,
            ch == channels@.len(),
            forall|c: int|
                0 <= c < channels@.len() ==> (#[trigger] channels@[c])@.len() == p.end - p.start,
            n <= frames,
            0 <= n * ch <= frames * ch,
            out@ =~= woven(channels@, *p).take(n * ch),
        decreases frames - n,
    {
        let g: Bits = if p.fade_in_frames > 0 || p.fade_out_frames > 0 {
            fade_gain(p, n)
        } else {
            ONE
        };
        let mut c: usize = 0;
        while c < ch
            invariant
                frames == p.end - p.start,
                ch == channels@.len(),
                forall|c: int|
                    0 <= c < channels@.len() ==> (#[trigger] channels@[c])@.len() == p.end - p.start,
                n < frames,
                g == frame_factor(*p, n as nat),
                c <= ch,
                0 <= n * ch + c <= frames * ch,
                out@ =~= woven(channels@, *p).take(n * ch + c),
            decreases ch - c,
        {
            proof {
                let i = n * ch + c;
                lemma_fundamental_div_mod_converse(i, ch as int, n as int, c as int);
                assert(i + 1 <= frames * ch) by (nonlinear_arith)
                    requires
                        i == n * ch + c,
                        n + 1 <= frames,
                        c < ch,
                ;
                assert(channels@[c as int]@.len() == frames);
            }
            out.push(multiply(channels[c][n], g));
            c = c + 1;
        }
        proof {
            assert((n + 1) * ch == n * ch + ch) by (nonlinear_arith);
            assert((n + 1) * ch <= frames * ch) by (nonlinear_arith)
                requires
                    n + 1 <= frames,
            ;
        }
        n = n + 1;
    }
    assert(woven(channels@, *p).take(frames * ch) =~= woven(channels@, *p));
    out
}

/// An oversampled zone, rendered as `out`.
pub open spec fn is_oversampled_zone<M: Fn(Function, Bits) -> Bits>(
    m: &M,
    os: Oversampler,
    samples: Seq<Bits>,
    ch: nat,
    p: ZonePlan,
    c: Chain,
    out: Seq<Bits>,
) -> bool {
    exists|channels: Seq<Vec<Bits>>|
        {
            &&& channels.len() == ch
            &&& forall|k: int|
                0 <= k < ch ==> is_processed_channel(
                    m,
                    os,
                    c,
                    zone_channel(samples, ch, p, c, k as nat),
                    (#[trigger] channels[k])@,
                )
            &&& out == #[trigger] woven(channels, p)
        }
}

/// Renders one zone, clipping it at the higher rate.
pub fn oversample_zone<M: Fn(Function, Bits) -> Bits>(
    m: &M,
    os: &Oversampler,
    samples: &Vec<Bits>,
    ch: usize,
    p: &ZonePlan,
    c: &Chain,
) -> (out: Vec<Bits>)
    requires
        is_total(m),
        os.wf(),
        p.start <= p.end,
        p.end * ch <= samples@.len(),
        (p.end - p.start) * os.factor <= usize::MAX,
    ensures
        is_oversampled_zone(m, *os, samples@, ch as nat, *p, *c, out@),
        out@.len() == (p.end - p.start) * ch,
{
    let mut channels: Vec<Vec<Bits>> = Vec::new();
    let mut k: usize = 0;
    while k < ch
        invariant
            is_total(m),
            os.wf(),
            p.start <= p.end,
            p.end * ch <= samples@.len(),
            (p.end - p.start) * os.factor <= usize::MAX,
            k <= ch,
            channels@.len() == k,
            forall|j: int|
                0 <= j < k ==> is_processed_channel(
                    m,
                    *os,
                    *c,
                    zone_channel(samples@, ch as nat, *p, *c, j as nat),
                    (#[trigger] channels@[j])@,
                ) && channels@[j]@.len() == p.end - p.start,
        decreases ch - k,
    {
        let input: Vec<Bits> = take_channel(samples, ch, p, c, k);
        let clip = |s: Bits| -> (x: Bits)
            requires
                is_total(m),
            ensures
                passes(m, *c, s, x),
            { pass(m, c, s) };
        let one: Vec<Bits> = os.process_block(&input, clip);
        proof {
            let high = choose|high: Seq<Bits>|
                os.is_block(input@, clip, high) && one@ == #[trigger] os.lowered(high, input@.len());
            assert forall|i: int| 0 <= i < high.len() implies passes(
                m,
                *c,
                os.raised(input@)[i],
                #[trigger] high[i],
            ) by {
                assert(call_ensures(clip, (os.raised(input@)[i],), high[i]));
            }
            assert(is_processed_channel(m, *os, *c, input@, one@));
        }
        channels.push(one);
        k = k + 1;
    }
    weave(&channels, p)
}

// ---- All zones --------------------------------------------------------------

/// A zone, rendered as `out` with a factor of oversampling. Up to one means no
/// oversampling.
pub open spec fn is_part<M: Fn(Function, Bits) -> Bits>(
    m: &M,
    factor: u8,
    samples: Seq<Bits>,
    ch: nat,
    p: ZonePlan,
    c: Chain,
    out: Seq<Bits>,
) -> bool {
    if factor <= 1 {
        is_rendered_zone(m, samples, ch, p, c, out)
    } else {
        exists|os: Oversampler| #[trigger]
            os.is_for(m, factor as nat) && is_oversampled_zone(m, os, samples, ch, p, c, out)
    }
}

/// A factor that a zone can be rendered with.
pub open spec fn is_oversampling(factor: u8) -> bool {
    factor <= 1 || is_factor(factor as int)
}

fn render_part<M: Fn(Function, Bits) -> Bits>(
    m: &M,
    factor: u8,
    samples: &Vec<Bits>,
    ch: usize,
    p: &ZonePlan,
    c: &Chain,
) -> (out: Vec<Bits>)
    requires
        is_total(m),
        is_oversampling(factor),
        ch > 0,
        p.start <= p.end,
        p.end * ch <= samples@.len(),
        factor > 1 ==> samples@.len() * 8 <= usize::MAX,
    ensures
        is_part(m, factor, samples@, ch as nat, *p, *c, out@),
        out@.len() == (p.end - p.start) * ch,
{
    if factor <= 1 {
        return render_zone(m, samples, ch, p, c);
    }
    let os: Oversampler = Oversampler::new(m, factor as usize);
    proof {
        assert((p.end - p.start) * os.factor <= samples@.len() * 8) by (nonlinear_arith)
            requires
                0 <= p.start <= p.end,
                p.end * ch <= samples@.len(),
                ch >= 1,
                os.factor <= 8,
        ;
    }
    oversample_zone(m, &os, samples, ch, p, c)
}

/// The zones of a plan, rendered as `out`: every zone at its place, and silence
/// behind the last. `factors` holds the oversampling of every zone.
pub open spec fn is_rendering<M: Fn(Function, Bits) -> Bits>(
    m: &M,
    samples: Seq<Bits>,
    ch: nat,
    plan: Seq<ZonePlan>,
    chains: Seq<Chain>,
    factors: Seq<u8>,
    out: Seq<Bits>,
) -> bool {
    &&& out.len() == samples.len()
    &&& forall|k: int|
        0 <= k < plan.len() ==> is_part(
            m,
            factors[k],
            samples,
            ch,
            #[trigger] plan[k],
            chains[k],
            out.subrange(plan[k].start * ch, plan[k].end * ch),
        )
    &&& forall|i: int| plan.last().end * ch <= i < out.len() ==> #[trigger] out[i] == 0
}

proof fn lemma_ends_in_order(plan: Seq<ZonePlan>, frames: nat, i: int, j: int)
    requires
        tiles(plan, frames),
        0 <= i <= j < plan.len(),
    ensures
        plan[i].end <= plan[j].end,
    decreases j - i,
{
    if i < j {
        lemma_ends_in_order(plan, frames, i, j - 1);
        assert(plan[j - 1].end == plan[j].start);
        assert(plan[j].start <= plan[j].end);
    }
}

/// How the zones of a file are rendered: the plan and the chains that follow
/// from the zones, the length of the file and its trim.
pub open spec fn is_setup<M: Fn(Function, Bits) -> Bits>(
    m: &M,
    zones: &ZoneMap,
    rate: u32,
    frames: nat,
    trim: Option<(usize, usize)>,
    plan: Seq<ZonePlan>,
    chains: Seq<Chain>,
) -> bool {
    &&& planned(plan, zones, rate, frames, trim)
    &&& are_chains(m, zones.zones@, rate, chains)
}

/// Channels of a file: at least one.
pub open spec fn channel_count(channels: u16) -> nat {
    if channels == 0 {
        1
    } else {
        channels as nat
    }
}

/// The plan and the chains of all zones of a file.
pub fn set_up<M: Fn(Function, Bits) -> Bits>(
    m: &M,
    zones: &ZoneMap,
    rate: u32,
    frames: usize,
    trim_window: Option<(usize, usize)>,
) -> (r: (Vec<ZonePlan>, Vec<Chain>))
    requires
        is_total(m),
        zones.wf(),
    ensures
        is_setup(m, zones, rate, frames as nat, trim_window, r.0@, r.1@),
        r.0@.len() == r.1@.len(),
        tiles(r.0@, frames as nat),
{
    let plan: Vec<ZonePlan> = render_plan(zones, rate, frames, trim_window);
    let chains: Vec<Chain> = zone_chains(m, &zones.zones, rate);
    (plan, chains)
}

fn append(out: &mut Vec<Bits>, part: &Vec<Bits>)
    ensures
        final(out)@ == old(out)@ + part@,
{
    let mut i: usize = 0;
    while i < part.len()
        invariant
            i <= part@.len(),
            out@ =~= old(out)@ + part@.take(i as int),
        decreases part@.len() - i,
    {
        out.push(part[i]);
        i = i + 1;
    }
    assert(part@.take(part@.len() as int) =~= part@);
}

fn silence_up_to(out: &mut Vec<Bits>, len: usize)
    requires
        old(out)@.len() <= len,
    ensures
        final(out)@.len() == len,
        forall|i: int| 0 <= i < old(out)@.len() ==> #[trigger] final(out)@[i] == old(out)@[i],
        forall|i: int| old(out)@.len() <= i < len ==> #[trigger] final(out)@[i] == 0,
{
    while out.len() < len
        invariant
            old(out)@.len() <= out@.len() <= len,
            forall|i: int| 0 <= i < old(out)@.len() ==> #[trigger] out@[i] == old(out)@[i],
            forall|i: int| old(out)@.len() <= i < out@.len() ==> #[trigger] out@[i] == 0,
        decreases len - out@.len(),
    {
        out.push(0);
    }
}

/// The place of zone `k` of a plan in the samples of a file.
proof fn lemma_place(plan: Seq<ZonePlan>, ch: nat, len: nat, k: int)
    requires
        ch > 0,
        tiles(plan, len / ch),
        0 <= k < plan.len(),
    ensures
        0 <= plan[k].start * ch <= plan[k].end * ch <= len,
        plan[k].end * ch <= plan.last().end * ch <= len,
        (plan[k].end - plan[k].start) * ch == plan[k].end * ch - plan[k].start * ch,
        k == 0 ==> plan[k].start * ch == 0,
        k > 0 ==> plan[k].start * ch == plan[k - 1].end * ch,
{
    lemma_frames_fit(len, ch);
    lemma_zone_fits(plan[k], ch, len / ch, len);
    lemma_zone_fits(plan.last(), ch, len / ch, len);
    lemma_ends_in_order(plan, len / ch, k, plan.len() - 1);
    assert(plan[k].end * ch <= plan.last().end * ch) by (nonlinear_arith)
        requires
            plan[k].end <= plan.last().end,
            0 <= ch,
    ;
    if k == 0 {
        assert(0 * ch == 0);
    } else {
        assert(plan[k - 1].end == plan[k].start);
    }
}

/// Renders the zones of a plan one after the other.
fn render_parts<M: Fn(Function, Bits) -> Bits>(
    m: &M,
    samples: &Vec<Bits>,
    ch: usize,
    plan: &Vec<ZonePlan>,
    chains: &Vec<Chain>,
    factors: &Vec<u8>,
) -> (out: Vec<Bits>)
    requires
        is_total(m),
        ch > 0,
        plan@.len() == chains@.len(),
        plan@.len() == factors@.len(),
        tiles(plan@, samples@.len() / ch as nat),
        can_oversample(factors@, samples@.len()),
    ensures
        out@.len() == plan@.last().end * ch,
        out@.len() <= samples@.len(),
        forall|j: int|
            0 <= j < plan@.len() ==> plan@[j].end * ch <= out@.len() && is_part(
                m,
                factors@[j],
                samples@,
                ch as nat,
                #[trigger] plan@[j],
                chains@[j],
                out@.subrange(plan@[j].start * ch, plan@[j].end * ch),
            ),
{
    let mut out: Vec<Bits> = Vec::new();
    let mut k: usize = 0;
    while k < plan.len()
        invariant
            is_total(m),
            ch > 0,
            plan@.len() == chains@.len(),
            plan@.len() == factors@.len(),
            tiles(plan@, samples@.len() / ch as nat),
            can_oversample(factors@, samples@.len()),
            k <= plan@.len(),
            out@.len() == if k == 0 {
                0
            } else {
                plan@[k - 1].end * ch
            },
            forall|j: int|
                0 <= j < k ==> plan@[j].end * ch <= out@.len() && is_part(
                    m,
                    factors@[j],
                    samples@,
                    ch as nat,
                    #[trigger] plan@[j],
                    chains@[j],
                    out@.subrange(plan@[j].start * ch, plan@[j].end * ch),
                ),
        decreases plan@.len() - k,
    {
        proof {
            lemma_place(plan@, ch as nat, samples@.len(), k as int);
        }
        let part: Vec<Bits> = render_part(m, factors[k], samples, ch, &plan[k], &chains[k]);
        let ghost before = out@;
        append(&mut out, &part);
        proof {
            assert forall|j: int| 0 <= j < k + 1 implies plan@[j].end * ch <= out@.len() && is_part(
                m,
                factors@[j],
                samples@,
                ch as nat,
                #[trigger] plan@[j],
                chains@[j],
                out@.subrange(plan@[j].start * ch, plan@[j].end * ch),
            ) by {
                lemma_place(plan@, ch as nat, samples@.len(), j);
                let (a, b) = (plan@[j].start * ch, plan@[j].end * ch);
                if j < k {
                    assert(out@.subrange(a, b) =~= before.subrange(a, b));
                } else {
                    assert(out@.subrange(a, b) =~= part@);
                }
            }
        }
        k = k + 1;
    }
    proof {
        lemma_place(plan@, ch as nat, samples@.len(), plan@.len() - 1);
    }
    out
}

/// Renders the zones of a plan.
pub fn render_planned<M: Fn(Function, Bits) -> Bits>(
    m: &M,
    samples: &Vec<Bits>,
    ch: usize,
    plan: &Vec<ZonePlan>,
    chains: &Vec<Chain>,
    factors: &Vec<u8>,
) -> (out: Vec<Bits>)
    requires
        is_total(m),
        ch > 0,
        plan@.len() == chains@.len(),
        plan@.len() == factors@.len(),
        tiles(plan@, samples@.len() / ch as nat),
        can_oversample(factors@, samples@.len()),
    ensures
        is_rendering(m, samples@, ch as nat, plan@, chains@, factors@, out@),
{
    let mut out: Vec<Bits> = render_parts(m, samples, ch, plan, chains, factors);
    let ghost rendered = out@;
    silence_up_to(&mut out, samples.len());
    proof {
        assert forall|j: int| 0 <= j < plan@.len() implies is_part(
            m,
            factors@[j],
            samples@,
            ch as nat,
            #[trigger] plan@[j],
            chains@[j],
            out@.subrange(plan@[j].start * ch as nat, plan@[j].end * ch as nat),
        ) by {
            lemma_place(plan@, ch as nat, samples@.len(), j);
            let (a, b) = (plan@[j].start * ch, plan@[j].end * ch);
            assert(out@.subrange(a, b) =~= rendered.subrange(a, b));
        }
    }
    out
}

/// The factors are such that zones can be rendered with, and the samples of the
/// file fit at the higher rate.
pub open spec fn can_oversample(factors: Seq<u8>, len: nat) -> bool {
    forall|k: int|
        0 <= k < factors.len() ==> {
            &&& is_oversampling(#[trigger] factors[k])
            &&& factors[k] > 1 ==> len * 8 <= usize::MAX
        }
}

/// No oversampling in any of `n` zones.
pub open spec fn none_oversampled(n: nat) -> Seq<u8> {
    Seq::new(n, |k: int| 1u8)
}

/// `out` is a file rendered with the given oversampling of its zones.
pub open spec fn is_render_of<M: Fn(Function, Bits) -> Bits>(
    m: &M,
    samples: Seq<Bits>,
    channels: u16,
    rate: u32,
    zones: &ZoneMap,
    trim: Option<(usize, usize)>,
    factors: Seq<u8>,
    out: Seq<Bits>,
) -> bool {
    let ch = channel_count(channels);
    exists|plan: Seq<ZonePlan>, chains: Seq<Chain>|
        #![trigger is_rendering(m, samples, ch, plan, chains, factors, out)]
        is_setup(m, zones, rate, samples.len() / ch, trim, plan, chains) && is_rendering(
            m,
            samples,
            ch,
            plan,
            chains,
            factors,
            out,
        )
}

fn render_at<M: Fn(Function, Bits) -> Bits>(
    m: &M,
    samples: &Vec<Bits>,
    channels: u16,
    sample_rate: u32,
    zones: &ZoneMap,
    trim_window: Option<(usize, usize)>,
    factors: &Vec<u8>,
) -> (out: Vec<Bits>)
    requires
        is_total(m),
        zones.wf(),
        factors@.len() == zones.zones@.len(),
        can_oversample(factors@, samples@.len()),
    ensures
        is_render_of(m, samples@, channels, sample_rate, zones, trim_window, factors@, out@),
{
    let ch: usize = if channels == 0 {
        1
    } else {
        channels as usize
    };
    let (plan, chains): (Vec<ZonePlan>, Vec<Chain>) = set_up(
        m,
        zones,
        sample_rate,
        samples.len() / ch,
        trim_window,
    );
    let out: Vec<Bits> = render_planned(m, samples, ch, &plan, &chains, factors);
    proof {
        assert(ch as nat == channel_count(channels));
        assert(is_rendering(m, samples@, channel_count(channels), plan@, chains@, factors@, out@));
    }
    out
}

/// Applies the processing of all zones to a file, without oversampling. Fades
/// anchor to the trim window, given in frames, as if its edges were the edges
/// of a zone.
pub fn render<M: Fn(Function, Bits) -> Bits>(
    m: &M,
    samples: &Vec<Bits>,
    channels: u16,
    sample_rate: u32,
    zones: &ZoneMap,
    trim_window: Option<(usize, usize)>,
) -> (out: Vec<Bits>)
    requires
        is_total(m),
        zones.wf(),
    ensures
        is_render_of(
            m,
            samples@,
            channels,
            sample_rate,
            zones,
            trim_window,
            none_oversampled(zones.zones@.len()),
            out@,
        ),
{
    let mut factors: Vec<u8> = Vec::new();
    while factors.len() < zones.zones.len()
        invariant
            factors@.len() <= zones.zones@.len(),
            factors@ =~= none_oversampled(factors@.len()),
        decreases zones.zones@.len() - factors@.len(),
    {
        factors.push(1);
    }
    render_at(m, samples, channels, sample_rate, zones, trim_window, &factors)
}

/// The oversampling that the zones ask for.
pub open spec fn asked_oversampling(zones: Seq<ZoneParams>) -> Seq<u8> {
    zones.map_values(|z: ZoneParams| z.oversampling)
}

/// Applies the processing of all zones to a file, each zone with the
/// oversampling that it asks for.
pub fn render_with_oversampling<M: Fn(Function, Bits) -> Bits>(
    m: &M,
    samples: &Vec<Bits>,
    channels: u16,
    sample_rate: u32,
    zones: &ZoneMap,
    trim_window: Option<(usize, usize)>,
) -> (out: Vec<Bits>)
    requires
        is_total(m),
        zones.wf(),
        can_oversample(asked_oversampling(zones.zones@), samples@.len()),
    ensures
        is_render_of(
            m,
            samples@,
            channels,
            sample_rate,
            zones,
            trim_window,
            asked_oversampling(zones.zones@),
            out@,
        ),
{
    let mut factors: Vec<u8> = Vec::new();
    let mut k: usize = 0;
    while k < zones.zones.len()
        invariant
            k <= zones.zones@.len(),
            factors@ =~= asked_oversampling(zones.zones@).take(k as int),
        decreases zones.zones@.len() - k,
    {
        factors.push(zones.zones[k].oversampling);
        k = k + 1;
    }
    assert(factors@ =~= asked_oversampling(zones.zones@));
    render_at(m, samples, channels, sample_rate, zones, trim_window, &factors)
}

/// Whether zones ask only for oversampling that there is.
pub fn can_oversample_zones(zones: &ZoneMap, len: usize) -> (r: bool)
    ensures
        r == can_oversample(asked_oversampling(zones.zones@), len as nat),
{
    let mut k: usize = 0;
    let ghost asked = asked_oversampling(zones.zones@);
    while k < zones.zones.len()
        invariant
            k <= zones.zones@.len(),
            asked == asked_oversampling(zones.zones@),
            forall|j: int|
                0 <= j < k ==> {
                    &&& is_oversampling(#[trigger] asked[j])
                    &&& asked[j] > 1 ==> len * 8 <= usize::MAX
                },
        decreases zones.zones@.len() - k,
    {
        let f: u8 = zones.zones[k].oversampling;
        assert(f == asked[k as int]);
        if f > 1 && (f != 2 && f != 4 && f != 8 || len > usize::MAX / 8) {
            return false;
        }
        k = k + 1;
    }
    true
}

// ---- Laws -------------------------------------------------------------------

/// A rendering is as long as the file.
pub proof fn law_rendering_keeps_length<M: Fn(Function, Bits) -> Bits>(
    m: &M,
    samples: Seq<Bits>,
    channels: u16,
    rate: u32,
    zones: &ZoneMap,
    trim: Option<(usize, usize)>,
    factors: Seq<u8>,
    out: Seq<Bits>,
)
    requires
        is_render_of(m, samples, channels, rate, zones, trim, factors, out),
    ensures
        out.len() == samples.len(),
{
}

/// Where every zone asks for no oversampling, with a factor of zero or one,
/// exporting a file renders what is heard: the export and the live rendering
/// are the same sounds, and where the mathematical library gives one value only
/// for each argument, the same sound.
pub proof fn law_plain_zones_export_as_heard<M: Fn(Function, Bits) -> Bits>(
    m: &M,
    samples: Seq<Bits>,
    channels: u16,
    rate: u32,
    zones: &ZoneMap,
    trim: Option<(usize, usize)>,
    x: Seq<Bits>,
    y: Seq<Bits>,
)
    requires
        zones.wf(),
        samples.len() <= usize::MAX,
        forall|k: int| 0 <= k < zones.zones@.len() ==> (#[trigger] zones.zones@[k]).oversampling <= 1,
    ensures
        is_render_of(m, samples, channels, rate, zones, trim, asked_oversampling(zones.zones@), x)
            <==> is_render_of(
            m,
            samples,
            channels,
            rate,
            zones,
            trim,
            none_oversampled(zones.zones@.len()),
            x,
        ),
        is_single_valued(m) && is_render_of(
            m,
            samples,
            channels,
            rate,
            zones,
            trim,
            asked_oversampling(zones.zones@),
            x,
        ) && is_render_of(
            m,
            samples,
            channels,
            rate,
            zones,
            trim,
            none_oversampled(zones.zones@.len()),
            y,
        ) ==> x == y,
{
    let asked = asked_oversampling(zones.zones@);
    let none = none_oversampled(zones.zones@.len());
    let ch = channel_count(channels);
    if is_render_of(m, samples, channels, rate, zones, trim, asked, x) {
        let (plan, chains) = choose|plan: Seq<ZonePlan>, chains: Seq<Chain>|
            #![trigger is_rendering(m, samples, ch, plan, chains, asked, x)]
            is_setup(m, zones, rate, samples.len() / ch, trim, plan, chains) && is_rendering(
                m,
                samples,
                ch,
                plan,
                chains,
                asked,
                x,
            );
        lemma_plain_factors(m, samples, ch, plan, chains, asked, none, x);
    }
    if is_render_of(m, samples, channels, rate, zones, trim, none, x) {
        let (plan, chains) = choose|plan: Seq<ZonePlan>, chains: Seq<Chain>|
            #![trigger is_rendering(m, samples, ch, plan, chains, none, x)]
            is_setup(m, zones, rate, samples.len() / ch, trim, plan, chains) && is_rendering(
                m,
                samples,
                ch,
                plan,
                chains,
                none,
                x,
            );
        lemma_plain_factors(m, samples, ch, plan, chains, none, asked, x);
    }
    if is_single_valued(m) && is_render_of(m, samples, channels, rate, zones, trim, none, x) && is_render_of(
        m,
        samples,
        channels,
        rate,
        zones,
        trim,
        none,
        y,
    ) {
        law_zones_do_not_interfere(m, samples, channels, rate, zones, zones, trim, -1, x, y);
        assert(x =~= y);
    }
}

/// Factors of at most one all mean the same.
proof fn lemma_plain_factors<M: Fn(Function, Bits) -> Bits>(
    m: &M,
    samples: Seq<Bits>,
    ch: nat,
    plan: Seq<ZonePlan>,
    chains: Seq<Chain>,
    f: Seq<u8>,
    g: Seq<u8>,
    out: Seq<Bits>,
)
    requires
        is_rendering(m, samples, ch, plan, chains, f, out),
        forall|k: int| 0 <= k < plan.len() ==> #[trigger] f[k] <= 1,
        forall|k: int| 0 <= k < plan.len() ==> #[trigger] g[k] <= 1,
    ensures
        is_rendering(m, samples, ch, plan, chains, g, out),
{
    assert forall|k: int| 0 <= k < plan.len() implies is_part(
        m,
        g[k],
        samples,
        ch,
        #[trigger] plan[k],
        chains[k],
        out.subrange(plan[k].start * ch, plan[k].end * ch),
    ) by {
        assert(f[k] <= 1 && g[k] <= 1);
    }
}

/// A sample of a file lies in one of its zones, or behind the last.
proof fn lemma_zone_of_sample(plan: Seq<ZonePlan>, ch: nat, frames: nat, i: int, n: int) -> (k: int)
    requires
        tiles(plan, frames),
        0 < n <= plan.len(),
        0 <= i < plan[n - 1].end * ch,
    ensures
        0 <= k < n,
        plan[k].start * ch <= i < plan[k].end * ch,
    decreases n,
{
    if n == 1 {
        assert(plan[0].start * ch == 0) by (nonlinear_arith)
            requires
                plan[0].start == 0,
        ;
        0
    } else if plan[n - 1].start * ch <= i {
        n - 1
    } else {
        assert(plan[n - 2].end == plan[n - 1].start);
        lemma_zone_of_sample(plan, ch, frames, i, n - 1)
    }
}

/// A library of single values gives one chain for a zone.
proof fn lemma_chain_is_unique<M: Fn(Function, Bits) -> Bits>(m: &M, z: ZoneParams, rate: u32, c: Chain, d: Chain)
    requires
        is_single_valued(m),
        is_chain(m, z, rate, c),
        is_chain(m, z, rate, d),
    ensures
        c == d,
{
    assert(c.pole == d.pole);
    assert(c.in_gain == d.in_gain);
    assert(c.ceiling == d.ceiling);
    assert(c.f_one == d.f_one);
    assert(c.out_gain == d.out_gain);
}

/// A library of single values renders a sample in one way.
proof fn lemma_sample_is_unique<M: Fn(Function, Bits) -> Bits>(
    m: &M,
    samples: Seq<Bits>,
    ch: nat,
    p: ZonePlan,
    c: Chain,
    i: nat,
    o: Bits,
    q: Bits,
)
    requires
        is_single_valued(m),
        is_rendered(m, samples, ch, p, c, i, o),
        is_rendered(m, samples, ch, p, c, i, q),
    ensures
        o == q,
{
    let s = blocked(samples, p.start * ch, ch as int, c, i as int);
    let x = choose|x: Bits| #[trigger] passes(m, c, s, x) && o == faded(x, p, i / ch);
    let y = choose|y: Bits| #[trigger] passes(m, c, s, y) && q == faded(y, p, i / ch);
    let f = choose|f: Bits| #[trigger]
        gives(m, c.clipper.needs(), clipper_argument(c, s), f) && x == clipped(c, s, f);
    let g = choose|g: Bits| #[trigger]
        gives(m, c.clipper.needs(), clipper_argument(c, s), g) && y == clipped(c, s, g);
    assert(f == g);
}

/// Two renderings agree at a sample of a zone that has one plan and one chain
/// in both.
proof fn lemma_same_in_zone<M: Fn(Function, Bits) -> Bits>(
    m: &M,
    samples: Seq<Bits>,
    ch: nat,
    pa: Seq<ZonePlan>,
    ca: Seq<Chain>,
    x: Seq<Bits>,
    pb: Seq<ZonePlan>,
    cb: Seq<Chain>,
    y: Seq<Bits>,
    k: int,
    i: int,
)
    requires
        is_single_valued(m),
        ch > 0,
        tiles(pa, samples.len() / ch),
        pa.len() == pb.len(),
        is_rendering(m, samples, ch, pa, ca, none_oversampled(pa.len()), x),
        is_rendering(m, samples, ch, pb, cb, none_oversampled(pb.len()), y),
        0 <= k < pa.len(),
        pa[k] == pb[k],
        ca[k] == cb[k],
        pa[k].start * ch <= i < pa[k].end * ch,
    ensures
        x[i] == y[i],
{
    let p = pa[k];
    let c = ca[k];
    let (s, e) = (p.start * ch, p.end * ch);
    lemma_place(pa, ch, samples.len(), k);
    let sx = x.subrange(s, e);
    let sy = y.subrange(s, e);
    assert(is_part(m, 1, samples, ch, pa[k], ca[k], sx));
    assert(is_part(m, 1, samples, ch, pb[k], cb[k], sy));
    assert(is_rendered(m, samples, ch, p, c, (i - s) as nat, sx[i - s]));
    assert(is_rendered(m, samples, ch, p, c, (i - s) as nat, sy[i - s]));
    lemma_sample_is_unique(m, samples, ch, p, c, (i - s) as nat, sx[i - s], sy[i - s]);
}

/// The zone at `k` has one plan and one chain in both maps.
proof fn lemma_same_setup<M: Fn(Function, Bits) -> Bits>(
    m: &M,
    a: &ZoneMap,
    b: &ZoneMap,
    rate: u32,
    frames: nat,
    trim: Option<(usize, usize)>,
    pa: Seq<ZonePlan>,
    ca: Seq<Chain>,
    pb: Seq<ZonePlan>,
    cb: Seq<Chain>,
    k: int,
)
    requires
        is_single_valued(m),
        a.wf(),
        b.wf(),
        a.splits@ == b.splits@,
        0 <= k < a.zones@.len(),
        a.zones@[k] == b.zones@[k],
        is_setup(m, a, rate, frames, trim, pa, ca),
        is_setup(m, b, rate, frames, trim, pb, cb),
        frames <= usize::MAX,
    ensures
        pa[k] == pb[k],
        ca[k] == cb[k],
        pa[k].start == zone_start(a, k, rate, frames),
        pa[k].end == zone_end(a, k, rate, frames),
{
    assert(a.start_of(k) == b.start_of(k));
    assert(pa[k] == pb[k]);
    assert(is_chain(m, a.zones@[k], rate, ca[k]));
    assert(is_chain(m, a.zones@[k], rate, cb[k]));
    lemma_chain_is_unique(m, a.zones@[k], rate, ca[k], cb[k]);
}

/// Zones do not interfere: where two maps have the same splits and differ in
/// zone `j` alone, their renderings differ in the frames of zone `j` alone.
/// Fades and the DC blocker never cross the boundary of a zone.
pub proof fn law_zones_do_not_interfere<M: Fn(Function, Bits) -> Bits>(
    m: &M,
    samples: Seq<Bits>,
    channels: u16,
    rate: u32,
    a: &ZoneMap,
    b: &ZoneMap,
    trim: Option<(usize, usize)>,
    j: int,
    x: Seq<Bits>,
    y: Seq<Bits>,
)
    requires
        is_single_valued(m),
        samples.len() <= usize::MAX,
        a.wf(),
        b.wf(),
        a.splits@ == b.splits@,
        forall|k: int| 0 <= k < a.zones@.len() && k != j ==> #[trigger] a.zones@[k] == b.zones@[k],
        is_render_of(m, samples, channels, rate, a, trim, none_oversampled(a.zones@.len()), x),
        is_render_of(m, samples, channels, rate, b, trim, none_oversampled(b.zones@.len()), y),
    ensures
        x.len() == samples.len(),
        y.len() == samples.len(),
        ({
            let ch = channel_count(channels);
            let frames = samples.len() / ch;
            forall|i: int|
                0 <= i < samples.len() && !(0 <= j < a.zones@.len() && zone_start(a, j, rate, frames) * ch <= i
                    < zone_end(a, j, rate, frames) * ch) ==> #[trigger] x[i] == y[i]
        }),
{
    let ch = channel_count(channels);
    let frames = samples.len() / ch;
    let fa = none_oversampled(a.zones@.len());
    let fb = none_oversampled(b.zones@.len());
    let (pa, ca) = choose|plan: Seq<ZonePlan>, chains: Seq<Chain>|
        #![trigger is_rendering(m, samples, ch, plan, chains, fa, x)]
        is_setup(m, a, rate, frames, trim, plan, chains) && is_rendering(m, samples, ch, plan, chains, fa, x);
    let (pb, cb) = choose|plan: Seq<ZonePlan>, chains: Seq<Chain>|
        #![trigger is_rendering(m, samples, ch, plan, chains, fb, y)]
        is_setup(m, b, rate, frames, trim, plan, chains) && is_rendering(m, samples, ch, plan, chains, fb, y);
    lemma_div_is_ordered_by_denominator(samples.len() as int, 1, ch as int);
    law_plan_tiles(pa, a, rate, frames, trim);
    law_plan_tiles(pb, b, rate, frames, trim);
    assert forall|i: int|
        0 <= i < samples.len() && !(0 <= j < a.zones@.len() && zone_start(a, j, rate, frames) * ch <= i
            < zone_end(a, j, rate, frames) * ch) implies #[trigger] x[i] == y[i] by {
        if i < pa.last().end * ch {
            let k = lemma_zone_of_sample(pa, ch, frames, i, pa.len() as int);
            if k == j {
                lemma_bounds_of(a, rate, frames, trim, pa, j);
                assert(false);
            }
            assert(a.zones@[k] == b.zones@[k]);
            lemma_same_setup(m, a, b, rate, frames, trim, pa, ca, pb, cb, k);
            lemma_same_in_zone(m, samples, ch, pa, ca, x, pb, cb, y, k, i);
        }
    }
}

proof fn lemma_bounds_of(
    zones: &ZoneMap,
    rate: u32,
    frames: nat,
    trim: Option<(usize, usize)>,
    plan: Seq<ZonePlan>,
    k: int,
)
    requires
        planned(plan, zones, rate, frames, trim),
        0 <= k < plan.len(),
        frames <= usize::MAX,
    ensures
        plan[k].start == zone_start(zones, k, rate, frames),
        plan[k].end == zone_end(zones, k, rate, frames),
{
}

/// A frame where a zone does not fade keeps its level.
pub proof fn law_unfaded_keeps_level(v: Bits, p: ZonePlan, frame: nat)
    requires
        p.fade_in_frames == 0,
        p.fade_out_frames == 0,
    ensures
        faded(v, p, frame) == v,
{
}

} // verus!
