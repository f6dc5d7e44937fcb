//! What a zone does to its samples: how the hard clipper cuts, which function is behind
//! a curve, in what order the gains act, that a plain zone changes nothing, how a fade
//! runs, and that a constant offset fades away behind the DC blocker.

use vstd::prelude::*;
use vstd::arithmetic::div_mod::*;
use vstd::arithmetic::power2::*;
use crate::accuracy::{is_near, one, lemma_exact, lemma_fine, lemma_near_cancel, lemma_near_magnitude, lemma_near_share, lemma_one, lemma_small_number, lemma_whole_ratio};
use crate::arith::{abs, number, lemma_infinity, lemma_pattern_exact, lemma_ratio_pattern, lemma_sum};
use crate::dsp::{ClipperType, TWENTY, curve_at, in_ceilings, is_amplitude, logistic, shaped, lemma_absolute, lemma_factor_shrinks, lemma_rails};
use crate::functions::{Function, gives, is_single_valued};
use crate::plan::{ZonePlan, frame_at, minus};
use crate::render::{Chain, HIGHEST_CORNER, LOWEST_CORNER, MINUS_TURN, blocked, clipped, faded, fade_factor, filter_rate, is_chain, is_rendered, passes, pole_argument, shifted};
use crate::rounding::{nearest, nearest_ratio, lemma_ratio_between, lemma_ratio_error};
use crate::scalar::{fadd, fdiv, fmax, fmin, fmul, fsub, negated, lemma_negated};
use crate::single::{Bits, INFINITY, MILLIONTH, MINUS_ONE, ONE, TWO, at_most, ceil_product, clamped, is_finite, is_nan, last_digit, less, magnitude, negative, product, significand, unsigned, value, lemma_magnitude_order, lemma_zero};
use crate::zones::{ZoneParams, plain_zone};

verus! {

// ---- Times one --------------------------------------------------------------

/// One changes nothing as a factor or as a divisor, nor does minus one but for the sign.
pub proof fn lemma_times_one(x: Bits)
    requires
        is_finite(x),
    ensures
        fmul(x, ONE) == x,
        fmul(ONE, x) == x,
        fdiv(x, ONE) == x,
        fmul(MINUS_ONE, x) == negated(x),
{
    lemma_rails();
    lemma_one();
    lemma_negated(x);
    assert(unsigned(ONE) == ONE && unsigned(MINUS_ONE) == ONE);
    let m = magnitude(x);
    let u = pow2(149);
    lemma_zero(ONE);
    assert(magnitude(ONE) == u && magnitude(MINUS_ONE) == u);
    assert(m * u == u * m) by (nonlinear_arith);
    lemma_ratio_between(m * u, u, m, 24);
    lemma_pattern_exact(x);
    lemma_infinity();
    lemma_magnitude_order(x, INFINITY);
    assert(unsigned(INFINITY) == INFINITY);
    lemma_ratio_pattern(m * u, u, negative(x));
    lemma_ratio_pattern(m * u, u, !negative(x));
    let p = fmul(x, ONE);
    let q = fmul(MINUS_ONE, x);
    lemma_magnitude_order(p, x);
    lemma_magnitude_order(q, x);
}

// ---- The hard clipper -------------------------------------------------------

/// The hard clipper is a brick wall: what reaches the ceiling comes out as the ceiling,
/// with its sign, and what stays below it comes out as it went in, up to rounding.
pub proof fn law_hard_clipper_cuts(sample: Bits, ceiling: Bits, f: Bits, f_one: Bits)
    requires
        is_finite(sample),
        is_finite(ceiling),
        value(MILLIONTH) < value(ceiling) <= one(),
        magnitude(sample) <= 0x1_0000 * one(),
    ensures
        ({
            let out = shaped(sample, ceiling, ClipperType::Hard, f, f_one);
            &&& is_finite(out)
            &&& magnitude(sample) >= magnitude(ceiling) ==> value(out) == (if negative(sample) {
                -value(ceiling)
            } else {
                value(ceiling)
            })
            &&& magnitude(sample) <= magnitude(ceiling) ==> {
                &&& abs(value(out) - value(sample)) * 0x10_0000 <= magnitude(sample) + 0x100_0000
                &&& magnitude(out) <= magnitude(ceiling)
            }
        }),
{
    lemma_one();
    lemma2_to64();
    lemma_rails();
    lemma_zero(ceiling);
    assert(unsigned(ONE) == ONE && unsigned(MINUS_ONE) == ONE && unsigned(MILLIONTH) == MILLIONTH);
    let u = pow2(149);
    let s = magnitude(sample);
    let c = magnitude(ceiling);
    assert(value(MILLIONTH) >= 0);
    assert(c > 0);
    let n = in_ceilings(sample, ceiling);
    let num = s * u;
    let minus = negative(sample);
    assert(!negative(ceiling));
    lemma_ratio_pattern(num, c, minus);
    lemma_ratio_error(num, c, 24);
    let r = nearest_ratio(num, c, 24);
    lemma_ratio_between(num, c, u, 24);
    lemma_exact(1, 149);
    assert(1 * pow2(149) == u);
    let k = curve_at(ClipperType::Hard, n, f, f_one);
    if s >= c {
        assert(num >= u * c) by (nonlinear_arith)
            requires
                num == s * u,
                s >= c,
        ;
        assert(r >= u);
        assert(!is_nan(n) && magnitude(n) >= u) by {
            lemma_infinity();
            lemma_magnitude_order(n, INFINITY);
            assert(unsigned(INFINITY) == INFINITY);
            lemma_pow2_strictly_increases(149, 277);
        }
        assert(k == (if minus { MINUS_ONE } else { ONE }) || (value(n) == value(k) && magnitude(n) == u));
        if magnitude(n) == u {
            lemma_magnitude_order(n, ONE);
        }
        assert(k == (if minus { MINUS_ONE } else { ONE }));
        lemma_times_one(ceiling);
        lemma_negated(ceiling);
    } else {
        assert(num <= u * c) by (nonlinear_arith)
            requires
                num == s * u,
                s <= c,
        ;
        assert(r <= u);
        assert(is_finite(n) && magnitude(n) == r) by {
            lemma_pow2_strictly_increases(149, 277);
        }
        assert(k == n) by {
            lemma_magnitude_order(n, ONE);
        }
        lemma_below_ceiling(sample, ceiling);
    }
    if s == c {
        lemma_zero(sample);
    }
}

proof fn lemma_below_ceiling(sample: Bits, ceiling: Bits)
    requires
        is_finite(sample),
        is_finite(ceiling),
        !negative(ceiling),
        0 < magnitude(ceiling) <= pow2(149),
        magnitude(sample) < magnitude(ceiling),
    ensures
        ({
            let out = fmul(fdiv(sample, ceiling), ceiling);
            &&& is_finite(out)
            &&& abs(value(out) - value(sample)) * 0x10_0000 <= magnitude(sample) + 0x100_0000
            &&& magnitude(out) <= magnitude(ceiling)
        }),
{
    lemma_one();
    lemma2_to64();
    lemma_zero(ceiling);
    let u = pow2(149);
    let s = magnitude(sample);
    let c = magnitude(ceiling);
    let d: int = 0x100_0000;
    let n = fdiv(sample, ceiling);
    let num = s * u;
    lemma_ratio_pattern(num, c, negative(sample));
    lemma_ratio_error(num, c, 24);
    let r = nearest_ratio(num, c, 24);
    lemma_ratio_between(num, c, u, 24);
    lemma_exact(1, 149);
    assert(1 * pow2(149) == u);
    assert(num <= u * c) by (nonlinear_arith)
        requires
            num == s * u,
            s <= c,
    ;
    lemma_pow2_strictly_increases(149, 277);
    assert(is_finite(n) && magnitude(n) == r && negative(n) == negative(sample));
    lemma_factor_shrinks(n, ceiling);
    let back = r * c;
    lemma_ratio_pattern(back, u, negative(sample));
    lemma_ratio_error(back, u, 24);
    let o = nearest_ratio(back, u, 24);
    lemma_infinity();
    lemma_magnitude_order(ceiling, INFINITY);
    assert(unsigned(INFINITY) == INFINITY);
    let out = fmul(n, ceiling);
    lemma_magnitude_order(out, INFINITY);
    assert(magnitude(out) == o);
    // r * c is s * u, and o * u is r * c
    let su = s * u;
    assert(back * d <= su * d + su + c * d && su * d <= back * d + su + c * d);
    assert(o * u * d <= back * d + back + u * d && back * d <= o * u * d + back + u * d);
    let ou = o * u;
    assert(c * d <= u * d && back <= 2 * su + c);
    assert((ou - su) * d <= 4 * su + 3 * (u * d) && (su - ou) * d <= 4 * su + 3 * (u * d));
    let e = o - s;
    assert(e * d <= 4 * s + 3 * d && -(4 * s + 3 * d) <= e * d) by (nonlinear_arith)
        requires
            (ou - su) * d <= 4 * su + 3 * (u * d),
            (su - ou) * d <= 4 * su + 3 * (u * d),
            ou == o * u,
            su == s * u,
            e == o - s,
            u > 0,
    ;
    assert(abs(e) * 0x10_0000 <= s + 0x100_0000);
}

// ---- The other curves -------------------------------------------------------

/// The curves that rest on a function are what their names say. With `n` for the sample
/// in units of the ceiling, the tangent gives `tanh n`, the arctangent `atan n` over a
/// quarter turn, the algebraic curve `n` over the root of `1 + n^2`, the sine fold the
/// sine of `n` quarter turns, the driven tangent `tanh 2.5 n` and the sigmoid the logistic
/// curve of `3 n`, the last two measured by what they give for one, each times the ceiling.
pub proof fn law_curves_follow_functions<M: Fn(Function, Bits) -> Bits>(m: &M, c: Chain, s: Bits, x: Bits)
    requires
        passes(m, c, s, x),
        !at_most(c.ceiling, MILLIONTH),
    ensures
        ({
            let n = fdiv(fmul(s, c.in_gain), c.ceiling);
            match c.clipper {
                ClipperType::Tangent => exists|f: Bits| #[trigger]
                    gives(m, Function::Tanh, n, f) && x == fmul(fmul(f, c.ceiling), c.out_gain),
                ClipperType::Arctangent => exists|f: Bits| #[trigger]
                    gives(m, Function::Atan, n, f) && x == fmul(fmul(fdiv(f, 0x3fc9_0fdb), c.ceiling), c.out_gain),
                ClipperType::Algebraic => exists|f: Bits| #[trigger]
                    gives(m, Function::SquareRoot, fadd(ONE, fmul(n, n)), f) && x == fmul(
                        fmul(fdiv(n, f), c.ceiling),
                        c.out_gain,
                    ),
                ClipperType::SineFold => exists|f: Bits| #[trigger]
                    gives(m, Function::Sin, fmul(n, 0x3fc9_0fdb), f) && x == fmul(fmul(f, c.ceiling), c.out_gain),
                ClipperType::Hard => x == fmul(fmul(clamped(n, MINUS_ONE, ONE), c.ceiling), c.out_gain),
                ClipperType::TanhDrive => exists|f: Bits| #[trigger]
                    gives(m, Function::Tanh, fmul(0x4020_0000, n), f) && x == fmul(
                        fmul(clamped(fdiv(f, c.f_one), MINUS_ONE, ONE), c.ceiling),
                        c.out_gain,
                    ),
                ClipperType::Sigmoid => exists|e: Bits| #[trigger]
                    gives(m, Function::Exp, fmul(0xc040_0000, n), e) && x == fmul(
                        fmul(
                            clamped(
                                fdiv(
                                    fsub(fdiv(TWO, fadd(ONE, e)), ONE),
                                    fmax(fsub(fdiv(TWO, fadd(ONE, c.f_one)), ONE), MILLIONTH),
                                ),
                                MINUS_ONE,
                                ONE,
                            ),
                            c.ceiling,
                        ),
                        c.out_gain,
                    ),
                _ => true,
            }
        }),
{
    let f = choose|f: Bits| #[trigger]
        gives(m, c.clipper.needs(), crate::render::clipper_argument(c, s), f) && x == clipped(c, s, f);
    assert(gives(m, c.clipper.needs(), crate::render::clipper_argument(c, s), f));
}

/// The driven tangent and the sigmoid meet the ceiling where the sound does: a sample that
/// reaches the ceiling leaves them at the ceiling.
pub proof fn law_driven_curves_meet_ceiling<M: Fn(Function, Bits) -> Bits>(
    m: &M,
    z: ZoneParams,
    rate: u32,
    c: Chain,
    s: Bits,
    x: Bits,
)
    requires
        is_single_valued(m),
        is_chain(m, z, rate, c),
        passes(m, c, s, x),
        !at_most(c.ceiling, MILLIONTH),
        fdiv(fmul(s, c.in_gain), c.ceiling) == ONE,
        z.clipper is TanhDrive || z.clipper is Sigmoid,
        z.clipper is TanhDrive ==> is_finite(c.f_one) && value(c.f_one) > 0,
        z.clipper is Sigmoid ==> is_finite(logistic(c.f_one)) && value(logistic(c.f_one)) > value(MILLIONTH),
    ensures
        exists|k: Bits| value(k) == one() && x == fmul(#[trigger] fmul(k, c.ceiling), c.out_gain),
{
    lemma_rails();
    lemma_one();
    let f = choose|f: Bits| #[trigger]
        gives(m, c.clipper.needs(), crate::render::clipper_argument(c, s), f) && x == clipped(c, s, f);
    assert(f == c.f_one);
    let y = if z.clipper is TanhDrive {
        f
    } else {
        logistic(f)
    };
    lemma_zero(MILLIONTH);
    assert(value(MILLIONTH) >= 0);
    assert(value(y) * one() == (1nat * pow2(149)) * value(y)) by (nonlinear_arith)
        requires
            one() == pow2(149),
    ;
    crate::accuracy::lemma_exact_quotient(y, y, 1, 149);
    let k = clamped(fdiv(y, y), MINUS_ONE, ONE);
    assert(value(k) == one());
    assert(x == fmul(fmul(k, c.ceiling), c.out_gain));
}

/// The corner of the DC blocker is the one that was set: its pole is the exponential of
/// minus a full turn times the corner over the rate, up to rounding, a full turn being
/// between 6.28318 and 6.28319. The corner is kept between one and two hundred hertz.
pub proof fn law_blocker_corner(corner: Bits, rate: u32)
    requires
        is_finite(corner),
        1 <= rate <= 0x100_0000,
    ensures
        ({
            let a = pole_argument(corner, rate);
            let c = if value(corner) < one() {
                one()
            } else if value(corner) > 200 * one() {
                200 * one()
            } else {
                value(corner)
            };
            let x = magnitude(a) * rate;
            is_finite(a) && negative(a) && 628_317 * c <= 100_000 * x <= 628_320 * c
        }),
{
    lemma_rails();
    lemma_one();
    lemma_fine();
    lemma2_to64();
    lemma_pow2_adds(16, 133);
    lemma_pow2_adds(22, 127);
    let u = one();
    let b = pow2(127) as int;
    assert(u == 0x40_0000 * b);
    assert(unsigned(MINUS_TURN) == 0x40c9_0fdb && negative(MINUS_TURN));
    assert(last_digit(MINUS_TURN) == 128 && significand(MINUS_TURN) == 0xc9_0fdb);
    lemma_pow2_adds(1, 127);
    let turn = magnitude(MINUS_TURN) as int;
    assert(turn == 0xc9_0fdb * (2 * b));
    assert(628_318 * u <= 100_000 * turn <= 628_319 * u);
    assert(unsigned(LOWEST_CORNER) == ONE && LOWEST_CORNER == ONE);
    assert(unsigned(HIGHEST_CORNER) == HIGHEST_CORNER && !negative(HIGHEST_CORNER));
    assert(last_digit(HIGHEST_CORNER) == 133 && significand(HIGHEST_CORNER) == 0xc8_0000);
    assert(value(HIGHEST_CORNER) == 200 * u);
    let k = clamped(corner, LOWEST_CORNER, HIGHEST_CORNER);
    assert(is_finite(k) && u <= value(k) <= 200 * u);
    lemma_zero(k);
    let c = magnitude(k) as int;
    assert(c == value(k) && !negative(k));
    let w = pow2(276) as int;
    assert(turn * c >= u * 0x80_0000 && turn * c <= u * w) by (nonlinear_arith)
        requires
            628_318 * u <= 100_000 * turn,
            100_000 * turn <= 628_319 * u,
            u <= c <= 200 * u,
            u >= 0x1_0000_0000_0000,
            u * 0x1_0000_0000_0000_0000 <= w,
    ;
    lemma_near_magnitude(MINUS_TURN, k);
    let p = fmul(MINUS_TURN, k);
    let y = magnitude(p) as int;
    let t = turn * c;
    assert(y * u * 0x100_0000 <= t * 0x100_0001 && t * 0xff_ffff <= y * u * 0x100_0000) by (nonlinear_arith)
        requires
            -(1 * t) <= (y * u - t) * 0x100_0000 <= 1 * t,
    ;
    assert(y >= u && y <= 0x1000 * u) by (nonlinear_arith)
        requires
            y * u * 0x100_0000 <= t * 0x100_0001,
            t * 0xff_ffff <= y * u * 0x100_0000,
            t == turn * c,
            6 * u <= turn <= 7 * u,
            u <= c <= 200 * u,
            u > 0,
    ;
    lemma_small_number(rate as nat);
    let r = rate as int;
    let n = filter_rate(rate);
    lemma_zero(n);
    assert(r * u > 0) by (nonlinear_arith)
        requires
            r >= 1,
            u > 0,
    ;
    // the quotient of the positive number, which only differs in sign
    lemma_negated(p);
    let a = pole_argument(corner, rate);
    lemma_signed_quotient(p, n, r, y);
    let x = magnitude(a) * r;
    assert(628_317 * c <= 100_000 * x <= 628_320 * c) by {
        let v = x * 0x100_0000;
        assert(v <= y * 0x100_0001 && y * 0xff_ffff <= v);
        // bring the product in
        assert((x * u) * 0x1_0000_0000_0000 <= t * 0x1_0000_0200_0001) by (nonlinear_arith)
            requires
                x * 0x100_0000 <= y * 0x100_0001,
                y * u * 0x100_0000 <= t * 0x100_0001,
                u > 0,
        ;
        assert(t * 0xffff_fe00_0001 <= (x * u) * 0x1_0000_0000_0000) by (nonlinear_arith)
            requires
                y * 0xff_ffff <= x * 0x100_0000,
                t * 0xff_ffff <= y * u * 0x100_0000,
                u > 0,
        ;
        let d = u * c;
        assert(628_318 * d <= 100_000 * t <= 628_319 * d) by (nonlinear_arith)
            requires
                628_318 * u <= 100_000 * turn <= 628_319 * u,
                t == turn * c,
                d == u * c,
                c > 0,
        ;
        let xu = x * u;
        assert(d > 0) by (nonlinear_arith)
            requires
                d == u * c,
                u > 0,
                c > 0,
        ;
        assert(628_317 * d <= 100_000 * xu <= 628_320 * d);
        assert(628_317 * c <= 100_000 * x <= 628_320 * c) by (nonlinear_arith)
            requires
                628_317 * d <= 100_000 * xu <= 628_320 * d,
                d == u * c,
                xu == x * u,
                u > 0,
        ;
    }
}

/// A negative number over a whole one.
proof fn lemma_signed_quotient(p: Bits, n: Bits, r: int, y: int)
    requires
        is_finite(p),
        negative(p),
        y == magnitude(p),
        y >= one(),
        y <= 0x1000 * one(),
        1 <= r <= 0x100_0000,
        is_finite(n),
        !negative(n),
        value(n) == r * one(),
    ensures
        is_finite(fdiv(p, n)),
        negative(fdiv(p, n)),
        magnitude(fdiv(p, n)) * r * 0x100_0000 <= y * 0x100_0001,
        y * 0xff_ffff <= magnitude(fdiv(p, n)) * r * 0x100_0000,
{
    lemma_one();
    lemma_fine();
    let u = one();
    let w = pow2(276) as int;
    assert(r * u > 0) by (nonlinear_arith)
        requires
            r >= 1,
            u > 0,
    ;
    assert(magnitude(n) == r * u);
    assert(y * u >= (r * u) * 0x80_0000 && y * u <= (r * u) * w) by (nonlinear_arith)
        requires
            u <= y <= 0x1000 * u,
            1 <= r <= 0x100_0000,
            u >= 0x1_0000_0000_0000,
            u * 0x1_0000_0000 <= w,
    ;
    lemma_near_share(p, n);
    let q = magnitude(fdiv(p, n)) as int;
    lemma_near_cancel(q, y, r, u, 1);
    assert(is_near(q, y, r, 1));
}

/// The input gain cannot push a sound past the ceiling, and the output gain acts behind
/// the clipper: whatever a zone is driven with, what leaves its hard clipper is not above
/// the amplitude of its ceiling times that of its output gain, up to rounding.
pub proof fn law_output_bounded_by_settings<M: Fn(Function, Bits) -> Bits>(
    m: &M,
    z: ZoneParams,
    rate: u32,
    c: Chain,
    s: Bits,
    x: Bits,
)
    requires
        is_chain(m, z, rate, c),
        passes(m, c, s, x),
        z.clipper is Hard,
        !is_nan(fdiv(fmul(s, c.in_gain), c.ceiling)),
        // amplitudes are positive, and no gain is beyond all measure
        is_finite(c.ceiling) && at_most(0, c.ceiling) && magnitude(c.ceiling) <= one(),
        is_finite(c.out_gain) && magnitude(c.out_gain) <= 0x1_0000 * one(),
    ensures
        exists|ceiling: Bits, gain: Bits|
            {
                &&& #[trigger] is_amplitude(m, fmin(z.ceiling_db, 0), ceiling)
                &&& #[trigger] is_amplitude(m, z.output_gain_db, gain)
                &&& is_finite(x)
                &&& (magnitude(x) * one()) * 0x100_0000 <= (magnitude(ceiling) * magnitude(gain)) * 0x100_0001 + one()
                    * 0x100_0000
            },
{
    lemma_one();
    lemma2_to64();
    let f = choose|f: Bits| #[trigger]
        gives(m, c.clipper.needs(), crate::render::clipper_argument(c, s), f) && x == clipped(c, s, f);
    let driven = fmul(s, c.in_gain);
    let y = shaped(driven, c.ceiling, c.clipper, f, c.f_one);
    crate::dsp::law_cut_within_ceiling(driven, c.ceiling, c.clipper, f, c.f_one);
    lemma_zero(c.ceiling);
    assert(!is_nan(y)) by {
        assert(unsigned(y) == unsigned(crate::scalar::fabs(y)));
    }
    lemma_absolute(y);
    let a = magnitude(y);
    let b = magnitude(c.out_gain);
    let k = magnitude(c.ceiling);
    assert(a <= k);
    lemma_magnitude_order(y, INFINITY);
    lemma_infinity();
    assert(unsigned(INFINITY) == INFINITY);
    assert(is_finite(y)) by {
        lemma_magnitude_order(y, c.ceiling);
    }
    let num = a * b;
    let u = pow2(149);
    lemma_ratio_pattern(num, u, negative(y) != negative(c.out_gain));
    lemma_ratio_error(num, u, 24);
    let r = nearest_ratio(num, u, 24);
    assert(num <= k * b) by (nonlinear_arith)
        requires
            num == a * b,
            a <= k,
    ;
    assert(k * b <= (0x1_0000 * u) * u) by (nonlinear_arith)
        requires
            k <= u,
            b <= 0x1_0000 * u,
    ;
    assert(r <= 0x2_0000 * u) by (nonlinear_arith)
        requires
            r * u * 0x100_0000 <= num * 0x100_0000 + num + u * 0x100_0000,
            num <= (0x1_0000 * u) * u,
            u >= 1,
    ;
    assert(r < pow2(277));
    assert(magnitude(x) == r);
    assert(is_amplitude(m, fmin(z.ceiling_db, 0), c.ceiling) && is_amplitude(m, z.output_gain_db, c.out_gain));
}

// ---- A plain zone -----------------------------------------------------------

/// Is ten to the power of nothing one?
pub open spec fn has_unit<M: Fn(Function, Bits) -> Bits>(m: &M) -> bool {
    forall|y: Bits| #[trigger] gives(m, Function::TenTo, 0, y) ==> y == ONE
}

/// A plain zone is the identity: every sample within full scale leaves it as it came,
/// and what is beyond leaves it at full scale.
pub proof fn law_plain_zone_is_identity<M: Fn(Function, Bits) -> Bits>(
    m: &M,
    rate: u32,
    c: Chain,
    samples: Seq<Bits>,
    ch: nat,
    p: ZonePlan,
    i: nat,
    o: Bits,
)
    requires
        has_unit(m),
        is_chain(m, plain_zone(), rate, c),
        is_rendered(m, samples, ch, p, c, i, o),
        p.fade_in_frames == 0,
        p.fade_out_frames == 0,
        is_finite(samples[p.start * ch + i]),
    ensures
        ({
            let s = value(samples[p.start * ch + i]);
            &&& is_finite(o)
            &&& value(o) == (if s > one() {
                one()
            } else if s < -one() {
                -one()
            } else {
                s
            })
        }),
{
    lemma_plain_chain(m, rate, c);
    let x = choose|x: Bits| #[trigger]
        passes(m, c, blocked(samples, p.start * ch, ch as int, c, i as int), x) && o == faded(x, p, i / ch);
    let s = blocked(samples, p.start * ch, ch as int, c, i as int);
    let from = samples[p.start * ch + i];
    assert(s == fadd(from, 0));
    lemma_plus_nothing(from);
    lemma_plain_sample(m, c, s, x);
}

proof fn lemma_plain_chain<M: Fn(Function, Bits) -> Bits>(m: &M, rate: u32, c: Chain)
    requires
        has_unit(m),
        is_chain(m, plain_zone(), rate, c),
    ensures
        c.in_gain == ONE,
        c.ceiling == ONE,
        c.out_gain == ONE,
        c.clipper is Hard,
        c.dc_offset == 0,
        !c.dc_blocker,
{
    lemma_no_level();
    assert(fmin(0, 0) == 0u32);
    assert(is_amplitude(m, 0, c.in_gain) && is_amplitude(m, 0, c.ceiling) && is_amplitude(m, 0, c.out_gain));
}

proof fn lemma_plain_sample<M: Fn(Function, Bits) -> Bits>(m: &M, c: Chain, s: Bits, x: Bits)
    requires
        passes(m, c, s, x),
        c.in_gain == ONE,
        c.ceiling == ONE,
        c.out_gain == ONE,
        c.clipper is Hard,
        is_finite(s),
    ensures
        is_finite(x),
        value(x) == (if value(s) > one() {
            one()
        } else if value(s) < -one() {
            -one()
        } else {
            value(s)
        }),
{
    lemma_one();
    lemma_rails();
    let f = choose|f: Bits| #[trigger]
        gives(m, c.clipper.needs(), crate::render::clipper_argument(c, s), f) && x == clipped(c, s, f);
    lemma_times_one(s);
    assert(unsigned(ONE) == ONE && unsigned(MINUS_ONE) == ONE && unsigned(MILLIONTH) == MILLIONTH);
    lemma_magnitude_order(MILLIONTH, ONE);
    let k = clamped(s, MINUS_ONE, ONE);
    assert(is_finite(k));
    lemma_times_one(k);
    assert(!at_most(ONE, MILLIONTH));
    assert(x == k);
}

proof fn lemma_no_level()
    ensures
        fdiv(0, TWENTY) == 0,
{
    lemma_one();
    lemma_zero(0);
    assert(unsigned(0) == 0 && unsigned(TWENTY) == TWENTY);
    lemma_zero(TWENTY);
    let d = magnitude(TWENTY);
    assert(0 * pow2(149) == 0);
    lemma_ratio_between(0, d, 0, 24);
    lemma_exact(0, 0);
    assert(0 * pow2(0) == 0 && 0 * d == 0);
    lemma_ratio_pattern(0, d, false);
    lemma_magnitude_order(fdiv(0, TWENTY), 0);
    lemma_pow2_pos(277);
}

/// Nothing added changes no value.
proof fn lemma_plus_nothing(x: Bits)
    requires
        is_finite(x),
    ensures
        is_finite(fadd(x, 0)),
        value(fadd(x, 0)) == value(x),
{
    lemma_zero(0);
    lemma_zero(x);
    assert(unsigned(0) == 0);
    lemma_sum(x, 0);
    lemma_pattern_exact(x);
    lemma_infinity();
    lemma_magnitude_order(x, INFINITY);
    assert(unsigned(INFINITY) == INFINITY);
    lemma_zero(fadd(x, 0));
}

// ---- Fades ------------------------------------------------------------------

/// A fade is a straight line: `k` frames into a fade-in of `d` frames the level is
/// `k / d`, and `k` frames before the end of a fade-out it is `k / d`, up to rounding.
/// Outside of its fades a zone keeps its level.
pub proof fn law_fade_is_straight(p: ZonePlan, f: nat)
    requires
        p.fade_in_anchor <= p.fade_out_end <= 0x1_0000_0000,
        p.fade_in_frames <= 0x1_0000_0000,
        p.fade_out_frames <= 0x1_0000_0000,
        f <= 0x1_0000_0000,
        // not in both fades at once
        !(p.fade_in_anchor <= f < p.fade_in_anchor + p.fade_in_frames && p.fade_out_end - p.fade_out_frames <= f
            < p.fade_out_end),
    ensures
        ({
            let r = fade_factor(p, f);
            let k = f - p.fade_in_anchor;
            let l = p.fade_out_end - f;
            &&& is_finite(r)
            &&& 0 <= k < p.fade_in_frames ==> value(r) >= 0 && is_near(value(r), k * one(), p.fade_in_frames as int, 8)
            &&& 0 < l <= p.fade_out_frames ==> value(r) >= 0 && is_near(
                value(r),
                l * one(),
                p.fade_out_frames as int,
                8,
            )
            &&& !(0 <= k < p.fade_in_frames) && !(0 < l <= p.fade_out_frames) ==> value(r) == one()
        }),
{
    lemma_one();
    lemma_rails();
    assert(unsigned(ONE) == ONE);
    let k = f - p.fade_in_anchor;
    let l = p.fade_out_end - f;
    if 0 <= k < p.fade_in_frames {
        let d = p.fade_in_frames as nat;
        let q = fdiv(number(k as nat), number(d));
        if k > 0 {
            lemma_whole_ratio(k as nat, d);
        } else {
            lemma_nothing_of(d);
            assert(0 * one() == 0 && 0 * (d as int) == 0);
        }
        lemma_times_one(q);
        assert(fade_factor(p, f) == q);
    } else if 0 < l <= p.fade_out_frames {
        let d = p.fade_out_frames as nat;
        let q = fdiv(number(l as nat), number(d));
        lemma_whole_ratio(l as nat, d);
        let r = fmin(q, ONE);
        lemma_times_one(r);
        assert(fade_factor(p, f) == r);
        if less(ONE, q) {
            // rounding apart, the fraction is at most one
            let u = one();
            let v = value(q);
            let lu = l * u;
            let du = d * u;
            assert(lu <= du) by (nonlinear_arith)
                requires
                    lu == l * u,
                    du == d * u,
                    l <= d,
                    u > 0,
            ;
            assert(v * d >= du) by (nonlinear_arith)
                requires
                    v >= u,
                    du == d * u,
                    d >= 1,
            ;
            assert(u * d == du) by (nonlinear_arith)
                requires
                    du == d * u,
            ;
            assert(is_near(u, lu, d as int, 8));
        }
    }
}

proof fn lemma_nothing_of(d: nat)
    requires
        1 <= d <= 0x1_0000_0000,
    ensures
        is_finite(fdiv(number(0), number(d))),
        value(fdiv(number(0), number(d))) == 0,
{
    lemma_one();
    crate::accuracy::lemma_small_number(0);
    crate::accuracy::lemma_near_number(d);
    let a = number(0);
    let b = number(d);
    lemma_zero(a);
    lemma_zero(b);
    assert(0 * one() == 0 && 0 * pow2(149) == 0 && (0 * pow2(149)) * value(b) == 0);
    crate::accuracy::lemma_exact_quotient(a, b, 0, 149);
}

// ---- The DC blocker ---------------------------------------------------------

/// A constant fades away behind the DC blocker: sample by sample it never grows, and each
/// is the pole times the one before, whatever the constant and its offset.
pub proof fn law_constant_fades_away(samples: Seq<Bits>, from: int, ch: int, c: Chain, i: int)
    requires
        c.dc_blocker,
        ch > 0,
        i >= ch,
        is_finite(c.pole),
        at_most(0, c.pole),
        magnitude(c.pole) <= one(),
        shifted(samples, from, c, i) == shifted(samples, from, c, i - ch),
        is_finite(shifted(samples, from, c, i)),
        is_finite(blocked(samples, from, ch, c, i - ch)),
    ensures
        is_finite(blocked(samples, from, ch, c, i)),
        magnitude(blocked(samples, from, ch, c, i)) <= magnitude(blocked(samples, from, ch, c, i - ch)),
        value(blocked(samples, from, ch, c, i)) == value(fmul(c.pole, blocked(samples, from, ch, c, i - ch))),
{
    lemma_one();
    lemma_zero(0);
    let s = shifted(samples, from, c, i);
    let y = blocked(samples, from, ch, c, i - ch);
    let p = fmul(c.pole, y);
    lemma_factor_shrinks(c.pole, y);
    lemma_infinity();
    lemma_magnitude_order(y, INFINITY);
    lemma_magnitude_order(p, INFINITY);
    assert(unsigned(INFINITY) == INFINITY);
    assert(is_finite(p));
    lemma_negated(s);
    crate::accuracy::lemma_exact_sum(s, negated(s), 0, 149);
    assert(0 * pow2(149) == 0);
    let d = fsub(s, s);
    assert(is_finite(d) && value(d) == 0);
    lemma_sum(d, p);
    lemma_pattern_exact(p);
    lemma_zero(d);
    lemma_zero(p);
    let r = fadd(d, p);
    lemma_zero(r);
}

// ---- Times and frames -------------------------------------------------------

/// A time times a rate, as it is rounded.
proof fn lemma_time_product(t: Bits, rate: u32)
    requires
        is_finite(t),
        !negative(t),
        rate != 0,
        value(t) * rate <= 0x4000_0000 * one(),
    ensures
        ({
            let p = product(t, rate as nat) as int;
            let x = value(t) * rate;
            &&& p * 0x10_0000 <= x * 0x10_0001 + one()
            &&& x * 0xf_ffff <= p * 0x10_0000 + one()
            &&& p <= 0x6000_0000 * one()
        }),
{
    lemma_one();
    lemma2_to64();
    lemma2_to64_rest();
    lemma_pow2_strictly_increases(60, 149);
    let u = one();
    let d: int = 0x100_0000;
    let n = rate as int;
    let b = magnitude(t) as int;
    let w = nearest(rate as nat, 24) as int;
    crate::accuracy::lemma_near_number(rate as nat);
    crate::fft::lemma_word(rate as nat);
    assert(value(number(rate as nat)) == w * u);
    let z = (w - n) * d;
    assert(-n <= z <= n) by (nonlinear_arith)
        requires
            -(1 * (n * u)) <= ((w * u) * 1 - n * u) * d <= 1 * (n * u),
            z == (w - n) * d,
            u > 0,
    ;
    let y = b * w;
    let x = b * n;
    assert(y * d <= x * (d + 1) && x * (d - 1) <= y * d) by (nonlinear_arith)
        requires
            -n <= (w - n) * d <= n,
            y == b * w,
            x == b * n,
            b >= 0,
    ;
    assert(x >= 0 && y >= 0) by (nonlinear_arith)
        requires
            x == b * n,
            y == b * w,
            b >= 0,
            n >= 0,
            w >= 0,
    ;
    lemma_ratio_error(y as nat, 1, 24);
    let p = product(t, rate as nat) as int;
    assert(p == nearest(y as nat, 24));
    assert(p * d <= y * (d + 1) + d && y * (d - 1) <= p * d + d);
    assert(p * 0x10_0000 <= x * 0x10_0001 + u) by (nonlinear_arith)
        requires
            p * d <= y * (d + 1) + d,
            y * d <= x * (d + 1),
            x >= 0,
            u >= 0x100_0000,
            d == 0x100_0000,
    ;
    assert(x * 0xf_ffff <= p * 0x10_0000 + u) by (nonlinear_arith)
        requires
            y * (d - 1) <= p * d + d,
            x * (d - 1) <= y * d,
            x >= 0,
            u >= 0x100_0000,
            d == 0x100_0000,
    ;
}

/// The frame of a time is its seconds times the rate without the fraction, up to
/// rounding, but never past the end of the file. So a zone starts and ends at the frames
/// of its splits.
pub proof fn law_frame_of_time(t: Bits, rate: u32, frames: nat)
    requires
        is_finite(t),
        !negative(t),
        rate != 0,
        value(t) * rate <= 0x4000_0000 * one(),
    ensures
        ({
            let f = frame_at(t, rate, frames);
            let x = value(t) * rate;
            &&& f <= frames
            &&& (f * one()) * 0x10_0000 <= x * 0x10_0001 + one()
            &&& f < frames ==> x * 0xf_ffff <= ((f + 1) * one()) * 0x10_0000 + one()
        }),
{
    lemma_one();
    lemma_time_product(t, rate);
    let u = one();
    let p = product(t, rate as nat) as int;
    let k = p / u;
    lemma_fundamental_div_mod(p, u);
    lemma_mod_bound(p, u);
    lemma_div_pos_is_pos(p, u);
    assert(k <= 0x6000_0000) by (nonlinear_arith)
        requires
            u * k <= p,
            p <= 0x6000_0000 * u,
            u > 0,
    ;
    assert(u * k == k * u && (k + 1) * u == k * u + u) by (nonlinear_arith);
    let f = frame_at(t, rate, frames) as int;
    assert(f * u <= k * u) by (nonlinear_arith)
        requires
            f <= k,
            u > 0,
    ;
}

/// A trim ends with the frame that its end falls on: the first one that is not before
/// it, up to rounding.
pub proof fn law_frame_up_to_time(t: Bits, rate: u32)
    requires
        is_finite(t),
        !negative(t),
        rate != 0,
        value(t) * rate <= 0x4000_0000 * one(),
    ensures
        ({
            let f = ceil_product(t, rate as nat) as int;
            let x = value(t) * rate;
            &&& x * 0xf_ffff <= (f * one()) * 0x10_0000 + one()
            &&& ((f - 1) * one()) * 0x10_0000 <= x * 0x10_0001 + one()
        }),
{
    lemma_one();
    lemma_time_product(t, rate);
    let u = one();
    let p = product(t, rate as nat) as int;
    let k = (p + u - 1) / u;
    lemma_fundamental_div_mod(p + u - 1, u);
    lemma_mod_bound(p + u - 1, u);
    lemma_div_pos_is_pos(p + u - 1, u);
    assert(k <= 0x6000_0001) by (nonlinear_arith)
        requires
            u * k <= p + u - 1,
            p <= 0x6000_0000 * u,
            u > 0,
    ;
    assert(u * k == k * u && (k - 1) * u == k * u - u) by (nonlinear_arith);
}

} // verus!
