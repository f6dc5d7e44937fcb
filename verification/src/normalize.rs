//! Normalisation settings: whether the output is scaled, by which measure, and
//! to which target.

use vstd::prelude::*;
use vstd::arithmetic::power2::*;
use crate::accuracy::{is_near, one, lemma_near_quotient, lemma_one};
use crate::audio_io::at_least_one;
use crate::dsp::{is_amplitude, is_level, db_to_amp, amp_to_db, lemma_absolute, lemma_rails};
use crate::functions::{Function, is_total};
use crate::plan::{is_peak, measured, measure_window, peak_of};
use crate::arith::{abs, lemma_infinity, lemma_pattern_exact, lemma_ratio_pattern, lemma_sum};
use crate::rounding::{nearest, lemma_nearest_monotone, lemma_ratio_between, lemma_ratio_error};
use crate::scalar::{negated, lemma_negated, fadd, fsub, fmul, fdiv, fabs, add_to, subtract, multiply, divide_by, absolute};
use crate::single::{ONE, INFINITY, MILLIONTH, less, less_than, Bits, clamped, clamp, at_most, is_nan, is_finite, negative, unsigned, magnitude, significand, last_digit, value, lemma_magnitude_order, lemma_zero};

verus! {

/// What normalisation measures.
#[derive(Clone, Copy, PartialEq, Eq, Debug, Structural)]
pub enum NormalizeMode {
    /// The loudest sample, in dBFS.
    Peak,
    /// The integrated loudness, in LUFS.
    Lufs,
}

/// The choice offered to the user.
#[derive(Clone, Copy, PartialEq, Eq, Debug, Structural)]
pub enum NormalizeState {
    Off,
    Peak,
    Lufs,
}

impl Default for NormalizeMode {
    fn default() -> (m: Self)
        ensures
            m == NormalizeMode::Peak,
    {
        NormalizeMode::Peak
    }
}

impl NormalizeMode {
    pub open spec fn lowest(self) -> Bits {
        match self {
            NormalizeMode::Peak => 0xc140_0000,
            NormalizeMode::Lufs => 0xc1b8_0000,
        }
    }

    pub open spec fn highest(self) -> Bits {
        match self {
            NormalizeMode::Peak => 0,
            NormalizeMode::Lufs => 0xc110_0000,
        }
    }

    pub open spec fn usual(self) -> Bits {
        match self {
            NormalizeMode::Peak => 0xbe99_999a,
            NormalizeMode::Lufs => 0xc160_0000,
        }
    }

    /// The name shown in menus.
    pub fn label(self) -> (s: &'static str)
        ensures
            s@ == (match self {
                NormalizeMode::Peak => "Peak"@,
                NormalizeMode::Lufs => "LUFS"@,
            }),
    {
        match self {
            NormalizeMode::Peak => "Peak",
            NormalizeMode::Lufs => "LUFS",
        }
    }

    /// The unit of the target.
    pub fn unit(self) -> (s: &'static str)
        ensures
            s@ == (match self {
                NormalizeMode::Peak => "dBFS"@,
                NormalizeMode::Lufs => "LUFS"@,
            }),
    {
        match self {
            NormalizeMode::Peak => "dBFS",
            NormalizeMode::Lufs => "LUFS",
        }
    }

    /// Lowest, highest and usual target: -12 to 0 and -0.3 dBFS, or -23 to -9
    /// and -14 LUFS.
    pub fn range(self) -> (r: (Bits, Bits, Bits))
        ensures
            r == (self.lowest(), self.highest(), self.usual()),
    {
        match self {
            NormalizeMode::Peak => (0xc140_0000, 0, 0xbe99_999a),
            NormalizeMode::Lufs => (0xc1b8_0000, 0xc110_0000, 0xc160_0000),
        }
    }
}

impl NormalizeState {
    /// The choices, in the order of the menu.
    pub fn all() -> (list: [NormalizeState; 3])
        ensures
            list@ == seq![NormalizeState::Off, NormalizeState::Peak, NormalizeState::Lufs],
    {
        let list: [NormalizeState; 3] = [NormalizeState::Off, NormalizeState::Peak, NormalizeState::Lufs];
        list
    }

    /// The name shown in the menu.
    pub fn label(self) -> (s: &'static str)
        ensures
            s@ == (match self {
                NormalizeState::Off => "Off"@,
                NormalizeState::Peak => "Peak"@,
                NormalizeState::Lufs => "LUFS"@,
            }),
    {
        match self {
            NormalizeState::Off => "Off",
            NormalizeState::Peak => "Peak",
            NormalizeState::Lufs => "LUFS",
        }
    }
}

/// The settings in force.
#[derive(Clone, Copy, PartialEq, Eq, Debug, Structural)]
pub struct Normalize {
    pub enabled: bool,
    pub mode: NormalizeMode,
    pub target_db: Bits,
}

impl Normalize {
    /// Off, measuring peaks, at the usual target.
    pub open spec fn off() -> Normalize {
        Normalize { enabled: false, mode: NormalizeMode::Peak, target_db: NormalizeMode::Peak.usual() }
    }

    /// After the user picks a state. A change of mode resets the target, since
    /// the units differ.
    pub open spec fn with_state(self, state: NormalizeState) -> Normalize {
        match state {
            NormalizeState::Off => Normalize { enabled: false, ..self },
            NormalizeState::Peak => self.switched(NormalizeMode::Peak),
            NormalizeState::Lufs => self.switched(NormalizeMode::Lufs),
        }
    }

    pub open spec fn switched(self, mode: NormalizeMode) -> Normalize {
        Normalize {
            enabled: true,
            mode,
            target_db: if self.mode != mode {
                mode.usual()
            } else {
                self.target_db
            },
        }
    }

    /// After the user sets the target.
    pub open spec fn with_target(self, db: Bits) -> Normalize {
        Normalize { target_db: clamped(db, self.mode.lowest(), self.mode.highest()), ..self }
    }

    /// The target lies in the range of the mode.
    pub open spec fn in_range(self) -> bool {
        at_most(self.mode.lowest(), self.target_db) && at_most(self.target_db, self.mode.highest())
    }

    /// Off, at the usual peak target.
    pub fn new() -> (n: Normalize)
        ensures
            n == Normalize::off(),
    {
        Normalize { enabled: false, mode: NormalizeMode::Peak, target_db: 0xbe99_999a }
    }

    /// The state that the picker shows.
    pub fn state(&self) -> (s: NormalizeState)
        ensures
            s == (if !self.enabled {
                NormalizeState::Off
            } else {
                match self.mode {
                    NormalizeMode::Peak => NormalizeState::Peak,
                    NormalizeMode::Lufs => NormalizeState::Lufs,
                }
            }),
    {
        if !self.enabled {
            NormalizeState::Off
        } else {
            match self.mode {
                NormalizeMode::Peak => NormalizeState::Peak,
                NormalizeMode::Lufs => NormalizeState::Lufs,
            }
        }
    }

    /// Takes over the state that the user picked.
    pub fn set_state(&mut self, state: NormalizeState)
        ensures
            *final(self) == old(self).with_state(state),
    {
        let mode: NormalizeMode = match state {
            NormalizeState::Off => {
                self.enabled = false;
                return;
            },
            NormalizeState::Peak => NormalizeMode::Peak,
            NormalizeState::Lufs => NormalizeMode::Lufs,
        };
        if self.mode != mode {
            self.target_db = mode.range().2;
        }
        self.enabled = true;
        self.mode = mode;
    }

    /// Sets the target, kept in the range of the mode.
    pub fn set_target(&mut self, db: Bits)
        ensures
            *final(self) == old(self).with_target(db),
    {
        let (lo, hi, _usual): (Bits, Bits, Bits) = self.mode.range();
        proof {
            lemma_ranges(self.mode);
        }
        self.target_db = clamp(db, lo, hi);
    }
}

/// The ranges are not empty and hold the usual targets.
proof fn lemma_ranges(mode: NormalizeMode)
    ensures
        at_most(mode.lowest(), mode.highest()),
        at_most(mode.lowest(), mode.usual()),
        at_most(mode.usual(), mode.highest()),
{
    let (a, b, c) = (mode.lowest(), mode.highest(), mode.usual());
    crate::single::lemma_magnitude_order(a, b);
    crate::single::lemma_magnitude_order(a, c);
    crate::single::lemma_magnitude_order(b, c);
    assert(unsigned(0xc140_0000) == 0x4140_0000 && unsigned(0) == 0 && unsigned(0xbe99_999a) == 0x3e99_999a);
    assert(unsigned(0xc1b8_0000) == 0x41b8_0000 && unsigned(0xc110_0000) == 0x4110_0000 && unsigned(
        0xc160_0000,
    ) == 0x4160_0000);
    crate::single::lemma_zero(0);
}

/// Picking a state or setting a target keeps the target in the range of the
/// mode.
pub proof fn law_target_stays_in_range(n: Normalize, state: NormalizeState, db: Bits)
    requires
        n.in_range(),
        !is_nan(db),
    ensures
        n.with_state(state).in_range(),
        n.with_target(db).in_range(),
        Normalize::off().in_range(),
{
    lemma_ranges(NormalizeMode::Peak);
    lemma_ranges(NormalizeMode::Lufs);
}

/// Switching off and on again in the same mode keeps the target.
pub proof fn law_switching_off_keeps_target(n: Normalize)
    requires
        n.enabled,
    ensures
        n.with_state(NormalizeState::Off).with_state(
            match n.mode {
                NormalizeMode::Peak => NormalizeState::Peak,
                NormalizeMode::Lufs => NormalizeState::Lufs,
            },
        ) == n,
{
}

// ---- The gain ---------------------------------------------------------------

/// Peaks, and differences to full gain, below this do not count.
pub const NEGLIGIBLE: Bits = 0x3586_37bd;
/// One decibel below full scale.
pub const BELOW_FULL: Bits = 0xbf80_0000;

/// The gain that brings a peak to a level, both as amplitudes; one for silence.
pub open spec fn peak_gain_of(peak: Bits, target: Bits) -> Bits {
    if less(peak, NEGLIGIBLE) {
        ONE
    } else {
        fdiv(target, peak)
    }
}

/// The gain in decibels that brings a loudness to a target, held back so that
/// the peak stays one decibel below full scale. `peak_db` is the peak's level.
pub open spec fn loudness_gain_of(target: Bits, loudness: Bits, peak: Bits, peak_db: Bits) -> Bits {
    let wanted = fsub(target, loudness);
    let after = fadd(peak_db, wanted);
    if less(NEGLIGIBLE, peak) && less(BELOW_FULL, after) {
        fsub(wanted, fsub(after, BELOW_FULL))
    } else {
        wanted
    }
}

/// The gain that brings a peak to a level.
pub fn peak_gain(peak: Bits, target: Bits) -> (r: Bits)
    ensures
        r == peak_gain_of(peak, target),
{
    if less_than(peak, NEGLIGIBLE) {
        ONE
    } else {
        divide_by(target, peak)
    }
}

/// The gain in decibels that brings a loudness to a target.
pub fn loudness_gain_db(target: Bits, loudness: Bits, peak: Bits, peak_db: Bits) -> (r: Bits)
    ensures
        r == loudness_gain_of(target, loudness, peak, peak_db),
{
    let wanted: Bits = subtract(target, loudness);
    if less_than(NEGLIGIBLE, peak) {
        let after: Bits = add_to(peak_db, wanted);
        if less_than(BELOW_FULL, after) {
            return subtract(wanted, subtract(after, BELOW_FULL));
        }
    }
    wanted
}

/// A gain so close to one that it is not applied.
pub open spec fn leaves_alone(gain: Bits) -> bool {
    less(fabs(fsub(gain, ONE)), NEGLIGIBLE)
}

/// The gain in force: the given one, or one where normalisation is off, there
/// is nothing to scale, or the gain changes nothing.
pub open spec fn gain_in_force(enabled: bool, len: nat, gain: Bits) -> Bits {
    if !enabled || len == 0 || leaves_alone(gain) {
        ONE
    } else {
        gain
    }
}

/// Scales all samples by a gain, unless normalisation is off or the gain is
/// one. Returns the gain that was applied.
pub fn apply_gain(samples: &mut Vec<Bits>, enabled: bool, gain: Bits) -> (applied: Bits)
    ensures
        applied == gain_in_force(enabled, old(samples)@.len(), gain),
        !enabled || old(samples)@.len() == 0 || leaves_alone(gain) ==> final(samples)@ == old(samples)@,
        enabled && old(samples)@.len() > 0 && !leaves_alone(gain) ==> final(samples)@ == old(
            samples,
        )@.map_values(|s: Bits| fmul(s, gain)),
{
    if !enabled || samples.len() == 0 {
        return ONE;
    }
    if less_than(absolute(subtract(gain, ONE)), NEGLIGIBLE) {
        return ONE;
    }
    let ghost before = samples@;
    let n: usize = samples.len();
    let mut i: usize = 0;
    while i < n
        invariant
            n == samples@.len(),
            n == before.len(),
            i <= n,
            forall|k: int| 0 <= k < i ==> #[trigger] samples@[k] == fmul(before[k], gain),
            forall|k: int| i <= k < n ==> #[trigger] samples@[k] == before[k],
        decreases n - i,
    {
        let v: Bits = multiply(samples[i], gain);
        samples.set(i, v);
        i = i + 1;
    }
    assert(samples@ =~= before.map_values(|s: Bits| fmul(s, gain)));
    gain
}

/// The peak of the samples that normalisation measures.
pub fn measured_peak(samples: &Vec<Bits>, channels: u16, window: Option<(usize, usize)>) -> (peak: Bits)
    ensures
        ({
            let (a, b) = measured(samples@.len(), at_least_one(channels), window);
            is_peak(samples@, a as int, b as int, peak)
        }),
{
    let (a, b): (usize, usize) = measure_window(samples.len(), channels, window);
    peak_of(samples.as_slice(), a, b)
}

/// Normalising measured samples takes the gain `gain`. The loudness is `None`
/// where it could not be measured.
pub open spec fn is_gain<M: Fn(Function, Bits) -> Bits>(
    m: &M,
    mode: NormalizeMode,
    target_db: Bits,
    peak: Bits,
    loudness: Option<Bits>,
    gain: Bits,
) -> bool {
    match (mode, loudness) {
        (NormalizeMode::Peak, _) => exists|target: Bits| #[trigger]
            is_amplitude(m, target_db, target) && gain == peak_gain_of(peak, target),
        (NormalizeMode::Lufs, None) => gain == ONE,
        (NormalizeMode::Lufs, Some(l)) => exists|peak_db: Bits| #[trigger]
            is_level(m, peak, peak_db) && is_amplitude(
                m,
                loudness_gain_of(target_db, l, peak, peak_db),
                gain,
            ),
    }
}

fn gain_for<M: Fn(Function, Bits) -> Bits>(
    m: &M,
    mode: NormalizeMode,
    target_db: Bits,
    peak: Bits,
    loudness: Option<Bits>,
) -> (gain: Bits)
    requires
        is_total(m),
    ensures
        is_gain(m, mode, target_db, peak, loudness, gain),
{
    match mode {
        NormalizeMode::Peak => {
            let target: Bits = db_to_amp(m, target_db);
            peak_gain(peak, target)
        },
        NormalizeMode::Lufs => match loudness {
            None => ONE,
            Some(l) => {
                let peak_db: Bits = amp_to_db(m, peak);
                db_to_amp(m, loudness_gain_db(target_db, l, peak, peak_db))
            },
        },
    }
}

/// Samples as a gain leaves them.
pub open spec fn scaled_by(samples: Seq<Bits>, gain: Bits) -> Seq<Bits> {
    if leaves_alone(gain) {
        samples
    } else {
        samples.map_values(|s: Bits| fmul(s, gain))
    }
}

/// Brings a file to a peak or a loudness and returns the gain. Only the window,
/// given in frames, is measured; all samples are scaled. `loudness` is that of
/// the window, or `None` where it could not be measured.
pub fn apply_normalization<M: Fn(Function, Bits) -> Bits>(
    m: &M,
    samples: &mut Vec<Bits>,
    channels: u16,
    enabled: bool,
    mode: NormalizeMode,
    target_db: Bits,
    loudness: Option<Bits>,
    window: Option<(usize, usize)>,
) -> (applied: Bits)
    requires
        is_total(m),
    ensures
        !enabled || old(samples)@.len() == 0 ==> applied == ONE && final(samples)@ == old(samples)@,
        enabled && old(samples)@.len() > 0 ==> exists|peak: Bits, gain: Bits|
            #![trigger is_gain(m, mode, target_db, peak, loudness, gain)]
            {
                let (a, b) = measured(old(samples)@.len(), at_least_one(channels), window);
                &&& is_peak(old(samples)@, a as int, b as int, peak)
                &&& is_gain(m, mode, target_db, peak, loudness, gain)
                &&& applied == gain_in_force(enabled, old(samples)@.len(), gain)
                &&& final(samples)@ == scaled_by(old(samples)@, gain)
            },
{
    if !enabled || samples.len() == 0 {
        return ONE;
    }
    let peak: Bits = measured_peak(samples, channels, window);
    let gain: Bits = gain_for(m, mode, target_db, peak, loudness);
    apply_gain(samples, enabled, gain)
}

/// Normalisation that is switched off changes nothing.
pub proof fn law_off_changes_nothing(len: nat, gain: Bits)
    ensures
        gain_in_force(false, len, gain) == ONE,
{
}

// ---- Headroom ---------------------------------------------------------------

/// One decibel, in the units of magnitudes.
spec fn unit() -> int {
    pow2(149) as int
}

/// How far a sum of levels is off after rounding, in the units of magnitudes.
spec fn slack() -> int {
    pow2(137) as int
}

proof fn lemma_units()
    ensures
        unit() == slack() * 0x1000,
        slack() >= 0x1000,
        unit() * 0x1_0000 < pow2(277),
        value(BELOW_FULL) == -unit(),
        is_finite(BELOW_FULL),
{
    lemma2_to64();
    lemma_pow2_adds(12, 137);
    lemma_pow2_adds(12, 125);
    lemma_pow2_pos(125);
    lemma_pow2_adds(16, 149);
    lemma_pow2_strictly_increases(165, 277);
    lemma_rails();
}

/// A sum of levels is the exact one, up to a rounding.
proof fn lemma_level_sum(a: Bits, b: Bits)
    requires
        is_finite(a),
        is_finite(b),
        -(0x1000 * unit()) <= value(a) + value(b) <= 0x1000 * unit(),
    ensures
        is_finite(fadd(a, b)),
        -(slack() + 1) <= value(fadd(a, b)) - (value(a) + value(b)) <= slack() + 1,
{
    lemma_units();
    lemma2_to64();
    let x = value(a) + value(b);
    lemma_sum(a, b);
    lemma_ratio_error(abs(x), 1, 24);
    let r = nearest(abs(x), 24);
    assert(r * 1 * 0x100_0000 == r * 0x100_0000);
    assert(r < pow2(277));
}

proof fn lemma_level_difference(a: Bits, b: Bits)
    requires
        is_finite(a),
        is_finite(b),
        -(0x1000 * unit()) <= value(a) - value(b) <= 0x1000 * unit(),
    ensures
        is_finite(fsub(a, b)),
        -(slack() + 1) <= value(fsub(a, b)) - (value(a) - value(b)) <= slack() + 1,
{
    lemma_negated(b);
    lemma_level_sum(a, negated(b));
}

/// A level that a sound can have: within 1024 decibels.
pub open spec fn is_plausible(db: Bits) -> bool {
    is_finite(db) && magnitude(db) <= 1024 * pow2(149)
}

/// Loudness normalisation keeps a decibel of headroom: the level of the peak and the
/// gain come to one decibel below full scale at most, up to a 1024th of a decibel
/// for the roundings.
pub proof fn law_loudness_keeps_headroom(target: Bits, loudness: Bits, peak: Bits, peak_db: Bits)
    requires
        is_plausible(target),
        is_plausible(loudness),
        is_plausible(peak_db),
        less(NEGLIGIBLE, peak),
    ensures
        ({
            let gain_db = loudness_gain_of(target, loudness, peak, peak_db);
            &&& is_finite(gain_db)
            &&& 1024 * (value(peak_db) + value(gain_db)) <= 1024 * value(BELOW_FULL) + pow2(149)
        }),
{
    lemma_units();
    let wanted = fsub(target, loudness);
    lemma_level_difference(target, loudness);
    let after = fadd(peak_db, wanted);
    lemma_level_sum(peak_db, wanted);
    if less(BELOW_FULL, after) {
        let over = fsub(after, BELOW_FULL);
        lemma_level_difference(after, BELOW_FULL);
        lemma_level_difference(wanted, over);
    }
}

/// The amplitude of one decibel below full scale, 0.89125, with room for roundings:
/// 0.8915.
pub const HEADROOM: Bits = 0x3f64_3958;

/// Do amplitudes multiply as their levels add up? As far as the headroom needs it:
/// what comes to one decibel below full scale, up to a 1024th, is not above the
/// headroom.
pub open spec fn levels_add<M: Fn(Function, Bits) -> Bits>(m: &M) -> bool {
    forall|peak: Bits, peak_db: Bits, gain_db: Bits, gain: Bits| #[trigger]
        is_level(m, peak, peak_db) && #[trigger] is_amplitude(m, gain_db, gain) && !negative(peak) && is_finite(
            peak_db,
        ) && is_finite(gain_db) && 1024 * (value(peak_db) + value(gain_db)) <= 1024 * value(BELOW_FULL) + pow2(149)
            ==> is_finite(gain) && !negative(gain) && magnitude(peak) * magnitude(gain) <= magnitude(HEADROOM)
            * pow2(149)
}

/// After loudness normalisation no sample of the measured window is above one decibel
/// below full scale, up to rounding, wherever amplitudes multiply as their levels add
/// up.
pub proof fn law_loudness_peak<M: Fn(Function, Bits) -> Bits>(
    m: &M,
    samples: Seq<Bits>,
    a: int,
    b: int,
    target: Bits,
    loudness: Bits,
    peak: Bits,
    peak_db: Bits,
    gain: Bits,
    i: int,
)
    requires
        levels_add(m),
        0 <= a <= i < b <= samples.len(),
        is_finite(samples[i]),
        is_peak(samples, a, b, peak),
        less(NEGLIGIBLE, peak),
        is_level(m, peak, peak_db),
        is_amplitude(m, loudness_gain_of(target, loudness, peak, peak_db), gain),
        is_plausible(target),
        is_plausible(loudness),
        is_plausible(peak_db),
    ensures
        is_gain(m, NormalizeMode::Lufs, target, peak, Some(loudness), gain),
        !is_nan(scaled_by(samples, gain)[i]),
        magnitude(scaled_by(samples, gain)[i]) * 0x4_0000 <= magnitude(HEADROOM) * 0x4_0001,
{
    lemma_units();
    law_loudness_keeps_headroom(target, loudness, peak, peak_db);
    let s = samples[i];
    let h = magnitude(HEADROOM);
    let g = magnitude(gain);
    let w = pow2(149);
    lemma_pow2_pos(149);
    assert(magnitude(peak) * g <= h * w);
    if leaves_alone(gain) {
        lemma_near_one(gain);
        let p = magnitude(peak);
        assert(p * 0x7_ffff <= h * 0x8_0000) by (nonlinear_arith)
            requires
                p * g <= h * w,
                g * 0x8_0000 >= w * 0x7_ffff,
                w > 0,
        ;
    } else {
        let num = magnitude(s) * g;
        assert(num <= h * w) by (nonlinear_arith)
            requires
                num == magnitude(s) * g,
                magnitude(s) <= magnitude(peak),
                magnitude(peak) * g <= h * w,
        ;
        lemma_ratio_pattern(num, w, negative(s) != negative(gain));
        lemma_ratio_between(num, w, h, 24);
        lemma_pattern_exact(HEADROOM);
        lemma_magnitude_order(HEADROOM, INFINITY);
        lemma_infinity();
        assert(unsigned(INFINITY) == INFINITY && unsigned(HEADROOM) == HEADROOM);
    }
}

/// A gain that is left alone is close to one.
proof fn lemma_near_one(gain: Bits)
    requires
        is_finite(gain),
        !negative(gain),
        leaves_alone(gain),
    ensures
        magnitude(gain) * 0x8_0000 >= pow2(149) * 0x7_ffff,
{
    lemma_rails();
    lemma2_to64();
    let d = fsub(gain, ONE);
    lemma_negated(ONE);
    assert(unsigned(ONE) == ONE && unsigned(NEGLIGIBLE) == NEGLIGIBLE);
    lemma_sum(gain, negated(ONE));
    let x = value(gain) - value(ONE);
    lemma_absolute(d);
    let n = magnitude(NEGLIGIBLE);
    if abs(x) >= n {
        lemma_nearest_monotone(n, abs(x), 24);
        lemma_pattern_exact(NEGLIGIBLE);
        lemma_infinity();
        lemma_magnitude_order(NEGLIGIBLE, INFINITY);
        assert(unsigned(INFINITY) == INFINITY);
    }
    assert(last_digit(NEGLIGIBLE) == 106 && significand(NEGLIGIBLE) == 0x86_37bd) by {
        assert(unsigned(NEGLIGIBLE) / 0x80_0000 == 107);
    }
    lemma_pow2_adds(24, 106);
    lemma_pow2_adds(19, 130);
    let e = pow2(106);
    assert(n == 0x86_37bd * e);
    assert(n * 0x8_0000 <= pow2(149)) by (nonlinear_arith)
        requires
            n == 0x86_37bd * e,
            pow2(149) == 0x8_0000 * (0x100_0000 * e),
    ;
}

/// Loudness normalisation brings the loudness to the target wherever the headroom allows
/// it, and otherwise the peak to one decibel below full scale: the gain is the smaller
/// one of both, up to a 1024th of a decibel for the roundings.
pub proof fn law_loudness_reaches_target(target: Bits, loudness: Bits, peak: Bits, peak_db: Bits)
    requires
        is_plausible(target),
        is_plausible(loudness),
        is_plausible(peak_db),
    ensures
        ({
            let gain = value(loudness_gain_of(target, loudness, peak, peak_db));
            let wanted = value(target) - value(loudness);
            let room = -pow2(149) - value(peak_db);
            // never louder than asked for
            &&& 1024 * (gain - wanted) <= pow2(149)
            // as loud as asked for where the peak has room, or there is next to no sound
            &&& wanted <= room || !less(MILLIONTH, peak) ==> 1024 * (wanted - gain) <= pow2(149)
            // else as loud as the peak has room for
            &&& room <= wanted && less(MILLIONTH, peak) ==> -(pow2(149) as int) <= 1024 * (gain - room) <= pow2(149)
        }),
{
    lemma_units();
    let wanted = fsub(target, loudness);
    lemma_level_difference(target, loudness);
    let after = fadd(peak_db, wanted);
    lemma_level_sum(peak_db, wanted);
    if less(BELOW_FULL, after) {
        let over = fsub(after, BELOW_FULL);
        lemma_level_difference(after, BELOW_FULL);
        lemma_level_difference(wanted, over);
    }
}

/// Peak normalisation brings the peak to the target: the gain times the peak is the
/// amplitude asked for, up to rounding. A peak below a millionth is left alone.
pub proof fn law_peak_reaches_target(peak: Bits, target: Bits)
    requires
        is_finite(peak),
        is_finite(target),
        !negative(peak),
        magnitude(peak) <= 0x1_0000 * pow2(149),
        // from far below the lowest target up to far above the highest one
        pow2(149) <= 0x1_0000 * value(target) <= 0x1_0000_0000 * pow2(149),
    ensures
        ({
            let gain = peak_gain_of(peak, target);
            if less(peak, MILLIONTH) {
                value(gain) == pow2(149)
            } else {
                is_finite(gain) && is_near(value(gain), value(target) * one(), value(peak), 1)
            }
        }),
{
    lemma_one();
    lemma_rails();
    let u = one();
    let p = value(peak);
    let t = value(target);
    assert(unsigned(ONE) == ONE);
    if !less(peak, MILLIONTH) {
        assert(magnitude(MILLIONTH) == 0x86_37bd * pow2(106)) by {
            assert(unsigned(MILLIONTH) / 0x80_0000 == 107);
            assert(last_digit(MILLIONTH) == 106 && significand(MILLIONTH) == 0x86_37bd);
        }
        lemma2_to64();
        lemma2_to64_rest();
        lemma_pow2_pos(106);
        lemma_pow2_adds(43, 106);
        lemma_pow2_strictly_increases(60, 149);
        let q = pow2(106) as int;
        assert(magnitude(MILLIONTH) >= q) by (nonlinear_arith)
            requires
                magnitude(MILLIONTH) == 0x86_37bd * q,
                q > 0,
        ;
        assert(p >= q);
        assert(t * u >= p * 0x80_0000) by (nonlinear_arith)
            requires
                0x1_0000 * t >= u,
                0 <= p <= 0x1_0000 * u,
                u >= 0x1000_0000_0000_000,
        ;
        lemma_pow2_adds(149, 127);
        lemma_pow2_strictly_increases(62, 127);
        assert(t * u <= p * pow2(276)) by (nonlinear_arith)
            requires
                t <= 0x1_0000 * u,
                p >= q,
                u == 0x800_0000_0000 * q,
                pow2(276) == u * pow2(127),
                pow2(127) >= 0x1_0000 * 0x800_0000_0000,
                q > 0,
        ;
        lemma_near_quotient(target, peak);
    }
}

/// The gain of each mode serves its target. In the peak mode it brings the peak to the
/// amplitude of the target level, and leaves silence alone; in the loudness mode its
/// level is what the target asks for or the headroom allows, and a loudness that could
/// not be measured changes nothing.
pub proof fn law_gain_serves_target<M: Fn(Function, Bits) -> Bits>(
    m: &M,
    mode: NormalizeMode,
    target_db: Bits,
    peak: Bits,
    loudness: Option<Bits>,
    gain: Bits,
)
    requires
        is_gain(m, mode, target_db, peak, loudness, gain),
    ensures
        mode is Peak ==> exists|target: Bits|
            {
                &&& #[trigger] is_amplitude(m, target_db, target)
                &&& less(peak, MILLIONTH) ==> gain == ONE
                &&& is_finite(peak) && !negative(peak) && magnitude(peak) <= 0x1_0000 * pow2(149) && !less(
                    peak,
                    MILLIONTH,
                ) && is_finite(target) && pow2(149) <= 0x1_0000 * value(target) <= 0x1_0000_0000 * pow2(149) ==> is_near(
                    value(gain),
                    value(target) * one(),
                    value(peak),
                    1,
                )
            },
        mode is Lufs && loudness is None ==> gain == ONE,
        mode is Lufs && loudness is Some && is_plausible(target_db) && is_plausible(loudness->0) ==> exists|
            peak_db: Bits,
            gain_db: Bits,
        |
            {
                &&& #[trigger] is_level(m, peak, peak_db)
                &&& #[trigger] is_amplitude(m, gain_db, gain)
                &&& is_plausible(peak_db) ==> {
                    let wanted = value(target_db) - value(loudness->0);
                    let room = -pow2(149) - value(peak_db);
                    let g = value(gain_db);
                    &&& 1024 * (g - wanted) <= pow2(149)
                    &&& wanted <= room || !less(MILLIONTH, peak) ==> 1024 * (wanted - g) <= pow2(149)
                    &&& room <= wanted && less(MILLIONTH, peak) ==> -(pow2(149) as int) <= 1024 * (g - room) <= pow2(149)
                }
            },
{
    match mode {
        NormalizeMode::Peak => {
            let target = choose|target: Bits| #[trigger]
                is_amplitude(m, target_db, target) && gain == peak_gain_of(peak, target);
            if is_finite(peak) && !negative(peak) && magnitude(peak) <= 0x1_0000 * pow2(149) && is_finite(target) && pow2(149)
                <= 0x1_0000 * value(target) <= 0x1_0000_0000 * pow2(149) {
                law_peak_reaches_target(peak, target);
            }
            assert(is_amplitude(m, target_db, target));
        },
        NormalizeMode::Lufs => {
            if loudness is Some && is_plausible(target_db) && is_plausible(loudness->0) {
                let l = loudness->0;
                let peak_db = choose|peak_db: Bits| #[trigger]
                    is_level(m, peak, peak_db) && is_amplitude(
                        m,
                        loudness_gain_of(target_db, l, peak, peak_db),
                        gain,
                    );
                let gain_db = loudness_gain_of(target_db, l, peak, peak_db);
                if is_plausible(peak_db) {
                    law_loudness_reaches_target(target_db, l, peak, peak_db);
                }
                assert(is_level(m, peak, peak_db) && is_amplitude(m, gain_db, gain));
            }
        },
    }
}

/// Normalising multiplies every sample by one and the same gain, up to rounding; a gain
/// within two millionths of one is passed over.
pub proof fn law_every_sample_is_scaled(samples: Seq<Bits>, gain: Bits, i: int)
    requires
        0 <= i < samples.len(),
        is_finite(gain),
        is_finite(samples[i]),
        0 <= value(gain) <= 0x1_0000 * one(),
        magnitude(samples[i]) <= 0x1_0000 * one(),
    ensures
        ({
            let s = value(samples[i]);
            let out = scaled_by(samples, gain)[i];
            &&& scaled_by(samples, gain).len() == samples.len()
            &&& is_finite(out)
            &&& value(out) == s && abs(value(gain) - one()) * 0x8_0000 <= one() || {
                let few = magnitude(samples[i]) * magnitude(gain) + one() * 0x100_0000;
                -few <= (value(out) * one() - s * value(gain)) * 0x100_0000 <= few
            }
        }),
{
    lemma_one();
    lemma2_to64();
    let u = one();
    let x = samples[i];
    lemma_zero(gain);
    if leaves_alone(gain) {
        lemma_near_one_both(gain);
    } else {
        let num = magnitude(x) * magnitude(gain);
        let minus = negative(x) != negative(gain);
        lemma_ratio_pattern(num, pow2(149), minus);
        lemma_ratio_error(num, pow2(149), 24);
        let r = crate::rounding::nearest_ratio(num, pow2(149), 24);
        assert(num <= (0x1_0000 * u) * (0x1_0000 * u)) by (nonlinear_arith)
            requires
                num == magnitude(x) * magnitude(gain),
                magnitude(x) <= 0x1_0000 * u,
                magnitude(gain) <= 0x1_0000 * u,
        ;
        assert(r <= 0x4_0000_0000 * u) by (nonlinear_arith)
            requires
                r * u * 0x100_0000 <= num * 0x100_0000 + num + u * 0x100_0000,
                num <= (0x1_0000 * u) * (0x1_0000 * u),
                u >= 1,
        ;
        crate::accuracy::lemma_fine();
        lemma_pow2_strictly_increases(276, 277);
        let out = fmul(x, gain);
        assert(scaled_by(samples, gain)[i] == out);
        assert(value(out) * u == (if minus { -(r * u) } else { r * u })) by (nonlinear_arith)
            requires
                value(out) == (if minus { -(r as int) } else { r as int }),
        ;
        assert(value(x) * value(gain) == (if minus { -(num as int) } else { num as int })) by (nonlinear_arith)
            requires
                num == magnitude(x) * magnitude(gain),
                minus == (negative(x) != negative(gain)),
                value(x) == (if negative(x) { -(magnitude(x) as int) } else { magnitude(x) as int }),
                value(gain) == (if negative(gain) { -(magnitude(gain) as int) } else { magnitude(gain) as int }),
        ;
        assert(r * u * 0x100_0000 == (r * u) * 0x100_0000);
    }
}

/// A gain that is left alone is close to one on both sides.
proof fn lemma_near_one_both(gain: Bits)
    requires
        is_finite(gain),
        leaves_alone(gain),
    ensures
        abs(value(gain) - one()) * 0x8_0000 <= one(),
{
    lemma_rails();
    lemma2_to64();
    let d = fsub(gain, ONE);
    lemma_negated(ONE);
    assert(unsigned(ONE) == ONE && unsigned(NEGLIGIBLE) == NEGLIGIBLE);
    lemma_sum(gain, negated(ONE));
    let x = value(gain) - value(ONE);
    lemma_absolute(d);
    let n = magnitude(NEGLIGIBLE);
    if abs(x) >= n {
        lemma_nearest_monotone(n, abs(x), 24);
        lemma_pattern_exact(NEGLIGIBLE);
        lemma_infinity();
        lemma_magnitude_order(NEGLIGIBLE, INFINITY);
        assert(unsigned(INFINITY) == INFINITY);
    }
    assert(last_digit(NEGLIGIBLE) == 106 && significand(NEGLIGIBLE) == 0x86_37bd) by {
        assert(unsigned(NEGLIGIBLE) / 0x80_0000 == 107);
    }
    lemma_pow2_adds(24, 106);
    lemma_pow2_adds(19, 130);
    let e = pow2(106);
    assert(n * 0x8_0000 <= pow2(149)) by (nonlinear_arith)
        requires
            n == 0x86_37bd * e,
            pow2(149) == 0x8_0000 * (0x100_0000 * e),
    ;
}

} // verus!
