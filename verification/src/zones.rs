//! Zones: split points divide a file into stretches, each with its own
//! clipping parameters. Inside a zone the parameters are constant.

use vstd::prelude::*;
use crate::dsp::ClipperType;
use crate::arith::{plus, sum, lemma_sum_up, lemma_sum_down};
use crate::rounding::lemma_nearest_monotone;
use crate::single::{Bits, INFINITY, is_nan, not_a_number, closer, is_closer, distance, value, is_finite, unsigned, at_most, is_at_most, less, clamped};
use crate::single::{is_farther, farther, less_than, clamp, lemma_magnitude_order, lemma_pattern_order, lemma_zero};

verus! {

/// Splits closer together than this (one millisecond) count as duplicates.
pub const SPLIT_GAP: Bits = 0x3a83_126f;

/// One millisecond, negated.
pub const MINUS_SPLIT_GAP: Bits = 0xba83_126f;

/// Tolerances below which two settings count as equal: 1e-6, 1e-4 and 1e-3.
pub const TINY: Bits = 0x3586_37bd;

pub const SMALL: Bits = 0x38d1_b717;

pub const COARSE: Bits = 0x3a83_126f;

/// Twenty, the default cutoff of the DC blocker in hertz.
pub const TWENTY: Bits = 0x41a0_0000;

/// The parameters of one zone. Levels are in dB, fades in seconds.
#[derive(Clone, Copy, PartialEq, Eq, Debug, Structural)]
pub struct ZoneParams {
    pub ceiling_db: Bits,
    pub input_gain_db: Bits,
    pub output_gain_db: Bits,
    pub clipper: ClipperType,
    /// Oversampling factor used when rendering to a file: 1, 2, 4 or 8.
    pub oversampling: u8,
    /// Linear amplitude added to every sample before the input gain.
    pub dc_offset: Bits,
    pub fade_in_secs: Bits,
    pub fade_out_secs: Bits,
    pub dc_blocker_enabled: bool,
    pub dc_blocker_hz: Bits,
}

/// The identity: a hard clipper at full scale, no gain, no fades.
pub open spec fn plain_zone() -> ZoneParams {
    ZoneParams {
        ceiling_db: 0,
        input_gain_db: 0,
        output_gain_db: 0,
        clipper: ClipperType::Hard,
        oversampling: 1,
        dc_offset: 0,
        fade_in_secs: 0,
        fade_out_secs: 0,
        dc_blocker_enabled: false,
        dc_blocker_hz: TWENTY,
    }
}

/// No oversampling unless asked for.
pub fn default_oversampling() -> (n: u8)
    ensures
        n == 1,
{
    1
}

/// The cutoff of the DC blocker unless asked for otherwise.
pub fn default_dc_blocker_hz() -> (hz: Bits)
    ensures
        hz == TWENTY,
{
    TWENTY
}

impl Default for ZoneParams {
    fn default() -> (z: Self)
        ensures
            z == plain_zone(),
    {
        ZoneParams {
            ceiling_db: 0,
            input_gain_db: 0,
            output_gain_db: 0,
            clipper: ClipperType::Hard,
            oversampling: 1,
            dc_offset: 0,
            fade_in_secs: 0,
            fade_out_secs: 0,
            dc_blocker_enabled: false,
            dc_blocker_hz: TWENTY,
        }
    }
}

/// Sorted split points in seconds, and the parameters of the zones between
/// them: one more zone than splits.
pub struct ZoneMap {
    pub splits: Vec<Bits>,
    pub zones: Vec<ZoneParams>,
}

/// What a zone map stands for.
#[verifier::ext_equal]
pub struct MapModel {
    pub splits: Seq<Bits>,
    pub zones: Seq<ZoneParams>,
}

impl MapModel {
    /// One more zone than splits, and splits in order.
    pub open spec fn wf(self) -> bool {
        &&& in_order(self.splits)
        &&& self.zones.len() == self.splits.len() + 1
    }

    /// One plain zone over the whole file.
    pub open spec fn single() -> MapModel {
        MapModel { splits: Seq::empty(), zones: seq![plain_zone()] }
    }

    /// The map after a split is added.
    pub open spec fn with_split(self, t: Bits) -> MapModel {
        let k = count_before(self.splits, t) as int;
        if crowded(self.splits, t) {
            self
        } else {
            MapModel {
                splits: self.splits.insert(k, t),
                zones: self.zones.insert(k + 1, self.zones[k]),
            }
        }
    }

    /// The map after split `i` is removed.
    pub open spec fn without_split(self, i: int) -> MapModel {
        if 0 <= i < self.splits.len() {
            MapModel { splits: self.splits.remove(i), zones: self.zones.remove(i + 1) }
        } else {
            self
        }
    }

    /// The earliest time that split `i` can move to.
    pub open spec fn move_floor(self, i: int) -> Bits {
        if i == 0 {
            0
        } else {
            sum(self.splits[i - 1], SPLIT_GAP)
        }
    }

    /// The latest time that split `i` can move to.
    pub open spec fn move_ceiling(self, i: int, duration: Bits) -> Bits {
        sum(
            if i + 1 < self.splits.len() {
                self.splits[i + 1]
            } else {
                duration
            },
            MINUS_SPLIT_GAP,
        )
    }

    /// The map after split `i` is moved to `t`, as far as its neighbours let
    /// it.
    pub open spec fn with_moved(self, i: int, t: Bits, duration: Bits) -> MapModel {
        MapModel {
            splits: self.splits.update(
                i,
                clamped(t, self.move_floor(i), self.move_ceiling(i, duration)),
            ),
            zones: self.zones,
        }
    }

    /// The map cut to a file of that duration.
    pub open spec fn fitted(self, duration: Bits) -> MapModel {
        let splits = inside(self.splits, duration);
        MapModel { splits, zones: resized(self.zones, splits.len() + 1) }
    }

    /// The map without the splits that are out of order.
    pub open spec fn ordered(self) -> MapModel {
        let splits = ascending_part(self.splits);
        MapModel { splits, zones: resized(self.zones, splits.len() + 1) }
    }

    /// The map with other parameters in zone `i`.
    pub open spec fn with_zone(self, i: int, z: ZoneParams) -> MapModel {
        MapModel { splits: self.splits, zones: self.zones.update(i, z) }
    }
}

impl View for ZoneMap {
    type V = MapModel;

    open spec fn view(&self) -> MapModel {
        MapModel { splits: self.splits@, zones: self.zones@ }
    }
}

/// Does a zone fade in or out?
pub open spec fn fades(z: ZoneParams) -> bool {
    less(0, z.fade_in_secs) || less(0, z.fade_out_secs)
}

/// The times that lie strictly inside a file of that duration.
pub open spec fn inside(s: Seq<Bits>, duration: Bits) -> Seq<Bits>
    decreases s.len(),
{
    if s.len() == 0 {
        Seq::empty()
    } else if less(0, s.last()) && less(s.last(), duration) {
        inside(s.drop_last(), duration).push(s.last())
    } else {
        inside(s.drop_last(), duration)
    }
}

/// The times that are numbers and do not fall back behind what was kept before
/// them.
pub open spec fn ascending_part(s: Seq<Bits>) -> Seq<Bits>
    decreases s.len(),
{
    if s.len() == 0 {
        Seq::empty()
    } else {
        let kept = ascending_part(s.drop_last());
        if s.last() < INFINITY && (kept.len() == 0 || kept.last() <= s.last()) {
            kept.push(s.last())
        } else {
            kept
        }
    }
}

/// `n` zones: spare ones are dropped, missing ones are plain.
pub open spec fn resized(zones: Seq<ZoneParams>, n: nat) -> Seq<ZoneParams> {
    Seq::new(
        n,
        |i: int|
            if i < zones.len() {
                zones[i]
            } else {
                plain_zone()
            },
    )
}

/// Times in order.
pub open spec fn in_order(s: Seq<Bits>) -> bool {
    &&& forall|i: int, j: int| 0 <= i < j < s.len() ==> s[i] <= s[j]
    &&& forall|i: int| 0 <= i < s.len() ==> #[trigger] s[i] < INFINITY
}

/// Are the times in order?
pub fn are_in_order(s: &Vec<Bits>) -> (r: bool)
    ensures
        r == in_order(s@),
{
    let n: usize = s.len();
    let mut i: usize = 0;
    while i < n
        invariant
            i <= n,
            n == s@.len(),
            forall|a: int, b: int| 0 <= a < b < i ==> s@[a] <= s@[b],
            forall|a: int| 0 <= a < i ==> #[trigger] s@[a] < INFINITY,
        decreases n - i,
    {
        if s[i] >= INFINITY {
            assert(!(s@[i as int] < INFINITY));
            return false;
        }
        if i > 0 && s[i - 1] > s[i] {
            assert(!(s@[i - 1] <= s@[i as int]));
            return false;
        }
        i = i + 1;
    }
    true
}

/// How many of the times lie before `t`.
pub open spec fn count_before(s: Seq<Bits>, t: Bits) -> nat
    decreases s.len(),
{
    if s.len() == 0 {
        0
    } else {
        count_before(s.drop_last(), t) + if s.last() < t {
            1nat
        } else {
            0nat
        }
    }
}

/// How many of the times lie at or before `t`.
pub open spec fn count_until(s: Seq<Bits>, t: Bits) -> nat
    decreases s.len(),
{
    if s.len() == 0 {
        0
    } else {
        count_until(s.drop_last(), t) + if s.last() <= t {
            1nat
        } else {
            0nat
        }
    }
}

/// The zone that a time falls in: the number of splits at or before it, none
/// where the time is negative or no number.
pub open spec fn zone_of(s: Seq<Bits>, t: Bits) -> nat {
    if is_nan(t) || less(t, 0) {
        0
    } else {
        count_until(s, unsigned(t) as u32)
    }
}

/// Is there a split too close to `t`?
pub open spec fn crowded(s: Seq<Bits>, t: Bits) -> bool {
    exists|i: int| 0 <= i < s.len() && closer(#[trigger] s[i], t, SPLIT_GAP)
}

/// The pairwise rule that splits keep.
pub open spec fn spaced(s: Seq<Bits>) -> bool {
    forall|i: int, j: int|
        0 <= i < s.len() && 0 <= j < s.len() && i != j ==> !closer(
            #[trigger] s[i],
            #[trigger] s[j],
            SPLIT_GAP,
        )
}

/// The counts are positions in a sorted list.
pub proof fn lemma_counts(s: Seq<Bits>, t: Bits)
    requires
        in_order(s),
    ensures
        count_before(s, t) <= count_until(s, t) <= s.len(),
        forall|i: int| 0 <= i < s.len() ==> (i < count_before(s, t) <==> #[trigger] s[i] < t),
        forall|i: int| 0 <= i < s.len() ==> (i < count_until(s, t) <==> #[trigger] s[i] <= t),
    decreases s.len(),
{
    if s.len() > 0 {
        let d = s.drop_last();
        assert(in_order(d));
        lemma_counts(d, t);
        assert forall|i: int| 0 <= i < s.len() implies (i < count_before(s, t) <==> #[trigger] s[i] < t) by {
            if i < d.len() {
                assert(s[i] == d[i]);
            }
            if d.len() > 0 {
                assert(d[d.len() - 1] == s[d.len() - 1]);
            }
        }
        assert forall|i: int| 0 <= i < s.len() implies (i < count_until(s, t) <==> #[trigger] s[i] <= t) by {
            if i < d.len() {
                assert(s[i] == d[i]);
            }
            if d.len() > 0 {
                assert(d[d.len() - 1] == s[d.len() - 1]);
            }
        }
    }
}

/// Among non-negative times, distance grows with separation.
proof fn lemma_farther_apart(a: Bits, b: Bits, t: Bits)
    requires
        a < INFINITY,
        b < INFINITY,
        t < INFINITY,
        (a <= b <= t) || (t <= b <= a),
        closer(a, t, SPLIT_GAP),
    ensures
        closer(b, t, SPLIT_GAP),
{
    lemma_magnitude_order(a, b);
    lemma_magnitude_order(b, t);
    lemma_magnitude_order(a, t);
    assert(distance(b, t) <= distance(a, t));
    lemma_nearest_monotone(distance(b, t), distance(a, t), 24);
}

/// In a sorted list only the two neighbours of `t` have to be looked at.
proof fn lemma_neighbours_decide(s: Seq<Bits>, t: Bits, k: int)
    requires
        in_order(s),
        t < INFINITY,
        k == count_before(s, t),
        k > 0 ==> !closer(s[k - 1], t, SPLIT_GAP),
        k < s.len() ==> !closer(s[k], t, SPLIT_GAP),
    ensures
        !crowded(s, t),
{
    lemma_counts(s, t);
    assert forall|i: int| 0 <= i < s.len() implies !closer(#[trigger] s[i], t, SPLIT_GAP) by {
        if closer(s[i], t, SPLIT_GAP) {
            if i < k {
                assert(i < k - 1 ==> s[i] <= s[k - 1]);
                lemma_farther_apart(s[i], s[k - 1], t);
            } else {
                assert(i > k ==> s[k] <= s[i]);
                lemma_farther_apart(s[i], s[k], t);
            }
        }
    }
}

/// Inserting a time at its position keeps the order.
proof fn lemma_insert_keeps_order(s: Seq<Bits>, t: Bits)
    requires
        in_order(s),
        t < INFINITY,
    ensures
        in_order(s.insert(count_before(s, t) as int, t)),
{
    lemma_counts(s, t);
    let k = count_before(s, t) as int;
    let f = s.insert(k, t);
    assert forall|i: int, j: int| 0 <= i < j < f.len() implies f[i] <= f[j] by {
        if i == k {
            assert(s[j - 1] >= t);
        } else if j == k {
            assert(s[i] < t);
        }
    }
}

/// What is kept lies inside the file and keeps its order.
/// What is kept is in order, and of times in order all are kept.
proof fn lemma_ascending_part(s: Seq<Bits>)
    ensures
        in_order(ascending_part(s)),
        in_order(s) ==> ascending_part(s) == s,
        ascending_part(s).len() <= s.len(),
        forall|i: int| 0 <= i < ascending_part(s).len() ==> s.contains(#[trigger] ascending_part(s)[i]),
    decreases s.len(),
{
    if s.len() > 0 {
        let d = s.drop_last();
        lemma_ascending_part(d);
        let k = ascending_part(d);
        let f = ascending_part(s);
        assert forall|i: int| 0 <= i < f.len() implies s.contains(#[trigger] f[i]) by {
            if i < k.len() {
                assert(f[i] == k[i]);
                let j = choose|j: int| 0 <= j < d.len() && d[j] == k[i];
                assert(s[j] == f[i]);
            } else {
                assert(s[s.len() - 1] == f[i]);
            }
        }
        if in_order(s) {
            assert(in_order(d));
            assert(k == d);
            if d.len() > 0 {
                assert(s[d.len() - 1] <= s[s.len() - 1]);
            }
            assert(f =~= s);
        }
    }
}

/// A map in order stays as it is.
pub proof fn law_ordered_stays(m: MapModel)
    requires
        m.wf(),
    ensures
        m.ordered() == m,
{
    lemma_ascending_part(m.splits);
    assert(m.ordered().zones =~= m.zones);
}

/// Brings a list of zones to one more than `n`.
fn resize_zones(zones: &mut Vec<ZoneParams>, n: usize)
    ensures
        final(zones)@ == resized(old(zones)@, (n + 1) as nat),
{
    let ghost z = zones@;
    if zones.len() > n {
        zones.truncate(n + 1);
    } else {
        while zones.len() <= n
            invariant
                z.len() <= zones@.len() <= n + 1,
                forall|k: int|
                    0 <= k < zones@.len() ==> #[trigger] zones@[k] == (if k < z.len() {
                        z[k]
                    } else {
                        plain_zone()
                    }),
            decreases n + 1 - zones@.len(),
        {
            zones.push(ZoneParams::default());
        }
    }
    assert(zones@ =~= resized(z, (n + 1) as nat));
}

proof fn lemma_inside(s: Seq<Bits>, duration: Bits)
    ensures
        forall|i: int|
            0 <= i < inside(s, duration).len() ==> less(0, #[trigger] inside(s, duration)[i]) && less(
                inside(s, duration)[i],
                duration,
            ) && s.contains(inside(s, duration)[i]),
        in_order(s) ==> in_order(inside(s, duration)),
        inside(s, duration).len() <= s.len(),
    decreases s.len(),
{
    if s.len() > 0 {
        let d = s.drop_last();
        lemma_inside(d, duration);
        let k = inside(d, duration);
        let f = inside(s, duration);
        assert forall|i: int| 0 <= i < f.len() implies less(0, #[trigger] f[i]) && less(f[i], duration)
            && s.contains(f[i]) by {
            if i < k.len() {
                assert(f[i] == k[i]);
                let j = choose|j: int| 0 <= j < d.len() && d[j] == k[i];
                assert(s[j] == f[i]);
            } else {
                assert(s[s.len() - 1] == f[i]);
            }
        }
        if in_order(s) {
            assert(in_order(d));
            assert forall|a: int, b: int| 0 <= a < b < f.len() implies f[a] <= f[b] by {
                if b == k.len() {
                    let j = choose|j: int| 0 <= j < d.len() && d[j] == k[a];
                    assert(s[j] <= s[s.len() - 1]);
                } else {
                    assert(k[a] <= k[b]);
                }
            }
            assert forall|a: int| 0 <= a < f.len() implies #[trigger] f[a] < INFINITY by {
                let j = choose|j: int| 0 <= j < s.len() && s[j] == f[a];
                assert(s[j] < INFINITY);
            }
        }
    }
}

/// A moved split stays between its neighbours and inside the file.
proof fn lemma_move_stays_between(m: MapModel, i: int, t: Bits, duration: Bits)
    requires
        m.wf(),
        0 <= i < m.splits.len(),
        t < INFINITY,
        m.splits.last() <= duration < INFINITY,
        at_most(m.move_floor(i), m.move_ceiling(i, duration)),
    ensures
        ({
            let r = clamped(t, m.move_floor(i), m.move_ceiling(i, duration));
            let next = if i + 1 < m.splits.len() { m.splits[i + 1] } else { duration };
            &&& r <= next
            &&& r < INFINITY
            &&& i > 0 ==> m.splits[i - 1] <= r
            &&& is_finite(SPLIT_GAP)
            &&& is_finite(MINUS_SPLIT_GAP)
        }),
{
    let lo = m.move_floor(i);
    let hi = m.move_ceiling(i, duration);
    let next = if i + 1 < m.splits.len() {
        m.splits[i + 1]
    } else {
        duration
    };
    let r = clamped(t, lo, hi);
    assert(unsigned(SPLIT_GAP) == SPLIT_GAP && unsigned(MINUS_SPLIT_GAP) == SPLIT_GAP);
    lemma_sum_down(next, MINUS_SPLIT_GAP);
    lemma_zero(0);
    if i > 0 {
        lemma_sum_up(m.splits[i - 1], SPLIT_GAP);
    }
    assert(value(r) <= value(next));
    // a pattern with a sign would stand for a negative number
    assert(value(lo) >= 0);
    assert(value(r) >= 0);
    lemma_pattern_order(r, next);
    if i > 0 {
        lemma_pattern_order(m.splits[i - 1], r);
    }
}

/// Adding a split keeps a map sound.
pub proof fn lemma_with_split_wf(m: MapModel, t: Bits)
    requires
        m.wf(),
        t < INFINITY,
    ensures
        m.with_split(t).wf(),
        m.with_split(t).splits.len() >= m.splits.len(),
        m.with_split(t).splits.len() <= m.splits.len() + 1,
        forall|i: int|
            0 <= i < m.with_split(t).splits.len() ==> (#[trigger] m.with_split(t).splits[i] == t
                || m.splits.contains(m.with_split(t).splits[i])),
{
    lemma_counts(m.splits, t);
    lemma_insert_keeps_order(m.splits, t);
    let k = count_before(m.splits, t) as int;
    let w = m.with_split(t).splits;
    assert forall|i: int| 0 <= i < w.len() implies (#[trigger] w[i] == t || m.splits.contains(w[i])) by {
        if crowded(m.splits, t) {
            assert(m.splits[i] == w[i]);
        } else if i < k {
            assert(m.splits[i] == w[i]);
        } else if i > k {
            assert(m.splits[i - 1] == w[i]);
        }
    }
}

impl ZoneMap {
    /// One more zone than splits, and splits in order.
    pub open spec fn wf(&self) -> bool {
        self@.wf()
    }

    /// Where zone `i` starts.
    pub open spec fn start_of(&self, i: int) -> Bits {
        if i == 0 {
            0
        } else {
            self.splits@[i - 1]
        }
    }

    /// Where zone `i` ends, in a file of that duration.
    pub open spec fn end_of(&self, i: int, duration: Bits) -> Bits {
        if i == self.splits@.len() {
            duration
        } else {
            self.splits@[i]
        }
    }

    /// One zone over the whole file.
    pub fn new() -> (m: ZoneMap)
        ensures
            m@ == MapModel::single(),
            m.wf(),
    {
        let mut zones: Vec<ZoneParams> = Vec::new();
        zones.push(ZoneParams::default());
        let m = ZoneMap { splits: Vec::new(), zones };
        assert(m.zones@ =~= seq![plain_zone()]);
        m
    }

    /// Inserts a split, copying the parameters of the zone that it divides.
    /// Near-duplicates are ignored.
    pub fn add_split(&mut self, t_secs: Bits)
        requires
            old(self).wf(),
            t_secs < INFINITY,
        ensures
            final(self).wf(),
            final(self)@ == old(self)@.with_split(t_secs),
    {
        let n: usize = self.splits.len();
        let mut idx: usize = 0;
        proof {
            lemma_counts(self.splits@, t_secs);
        }
        let ghost s = self.splits@;
        while idx < n && self.splits[idx] < t_secs
            invariant
                self.splits@ == s,
                n == s.len(),
                idx <= n,
                idx <= count_before(s, t_secs),
                in_order(s),
                forall|i: int|
                    0 <= i < s.len() ==> (i < count_before(s, t_secs) <==> #[trigger] s[i] < t_secs),
                count_before(s, t_secs) <= s.len(),
            decreases n - idx,
        {
            idx = idx + 1;
        }
        if idx > 0 && is_closer(self.splits[idx - 1], t_secs, SPLIT_GAP) {
            assert(closer(s[idx - 1], t_secs, SPLIT_GAP));
            return;
        }
        if idx < n && is_closer(self.splits[idx], t_secs, SPLIT_GAP) {
            assert(closer(s[idx as int], t_secs, SPLIT_GAP));
            return;
        }
        proof {
            lemma_neighbours_decide(s, t_secs, idx as int);
            lemma_insert_keeps_order(s, t_secs);
        }
        assert(idx < self.zones.len());
        self.splits.insert(idx, t_secs);
        let copy: ZoneParams = self.zones[idx];
        self.zones.insert(idx + 1, copy);
    }

    /// Removes a split. The zone to its left takes over the zone to its right.
    pub fn remove_split(&mut self, idx: usize)
        requires
            old(self).wf(),
        ensures
            final(self).wf(),
            final(self)@ == old(self)@.without_split(idx as int),
    {
        if idx >= self.splits.len() {
            return;
        }
        let _t: Bits = self.splits.remove(idx);
        let _z: ZoneParams = self.zones.remove(idx + 1);
    }

    /// The zone that a time falls in.
    pub fn zone_at(&self, t_secs: Bits) -> (z: usize)
        requires
            self.wf(),
        ensures
            z == zone_of(self.splits@, t_secs),
            z <= self.splits@.len(),
    {
        if not_a_number(t_secs) || less_than(t_secs, 0) {
            return 0;
        }
        let t: Bits = t_secs % 0x8000_0000;
        let n: usize = self.splits.len();
        let mut idx: usize = 0;
        proof {
            lemma_counts(self.splits@, t);
        }
        while idx < n && self.splits[idx] <= t
            invariant
                n == self.splits@.len(),
                idx <= n,
                idx <= count_until(self.splits@, t) <= n,
                forall|i: int|
                    0 <= i < n ==> (i < count_until(self.splits@, t) <==> #[trigger] self.splits@[i]
                        <= t),
            decreases n - idx,
        {
            idx = idx + 1;
        }
        idx
    }

    /// All zones with the times at which they start and end.
    pub fn iter_zones(&self, duration: Bits) -> (list: Vec<(Bits, Bits, ZoneParams)>)
        requires
            self.wf(),
        ensures
            list@.len() == self.zones@.len(),
            forall|i: int|
                0 <= i < list@.len() ==> #[trigger] list@[i] == (
                    self.start_of(i),
                    self.end_of(i, duration),
                    self.zones@[i],
                ),
    {
        let mut list: Vec<(Bits, Bits, ZoneParams)> = Vec::new();
        let n: usize = self.zones.len();
        let mut i: usize = 0;
        while i < n
            invariant
                self.wf(),
                n == self.zones@.len(),
                i <= n,
                list@.len() == i,
                forall|k: int|
                    0 <= k < i ==> #[trigger] list@[k] == (
                        self.start_of(k),
                        self.end_of(k, duration),
                        self.zones@[k],
                    ),
            decreases n - i,
        {
            let start: Bits = if i == 0 {
                0
            } else {
                self.splits[i - 1]
            };
            let end: Bits = if i == n - 1 {
                duration
            } else {
                self.splits[i]
            };
            list.push((start, end, self.zones[i]));
            i = i + 1;
        }
        list
    }

    /// Moves split `i` towards `t`, keeping it a millisecond away from its
    /// neighbours (or from the end of the file).
    pub fn move_split(&mut self, i: usize, t: Bits, duration: Bits)
        requires
            old(self).wf(),
            i < old(self).splits@.len(),
            t < INFINITY,
            old(self).splits@.last() <= duration < INFINITY,
            at_most(old(self)@.move_floor(i as int), old(self)@.move_ceiling(i as int, duration)),
        ensures
            final(self).wf(),
            final(self)@ == old(self)@.with_moved(i as int, t, duration),
            final(self).splits@.last() <= duration,
    {
        let ghost m = self@;
        let n: usize = self.splits.len();
        let lo: Bits = if i == 0 {
            0
        } else {
            plus(self.splits[i - 1], SPLIT_GAP)
        };
        let next: Bits = if i + 1 < n {
            self.splits[i + 1]
        } else {
            duration
        };
        let hi: Bits = plus(next, MINUS_SPLIT_GAP);
        let moved: Bits = clamp(t, lo, hi);
        proof {
            lemma_move_stays_between(m, i as int, t, duration);
        }
        self.splits.set(i, moved);
        proof {
            let f = m.splits.update(i as int, moved);
            assert(in_order(f)) by {
                assert forall|a: int, b: int| 0 <= a < b < f.len() implies f[a] <= f[b] by {
                    if b == i {
                        assert(m.splits[a] <= m.splits[i - 1]);
                    } else if a == i {
                        assert(m.splits[i + 1] <= m.splits[b]);
                    }
                }
            }
        }
    }

    /// Keeps the splits that lie inside a file of that duration and gives
    /// every zone parameters: missing ones are plain, spare ones are dropped.
    pub fn fit_to(&mut self, duration: Bits)
        ensures
            final(self)@ == old(self)@.fitted(duration),
            in_order(old(self).splits@) ==> final(self).wf(),
            forall|i: int| 0 <= i < final(self).splits@.len() ==> less(0, #[trigger] final(self).splits@[i])
                && less(final(self).splits@[i], duration),
    {
        let ghost s = self.splits@;
        let mut kept: Vec<Bits> = Vec::new();
        let mut i: usize = 0;
        proof {
            assert(s.take(0) =~= Seq::empty());
        }
        while i < self.splits.len()
            invariant
                self.splits@ == s,
                i <= s.len(),
                kept@ == inside(s.take(i as int), duration),
            decreases s.len() - i,
        {
            proof {
                assert(s.take(i + 1).drop_last() =~= s.take(i as int));
            }
            if less_than(0, self.splits[i]) && less_than(self.splits[i], duration) {
                kept.push(self.splits[i]);
            }
            i = i + 1;
        }
        proof {
            assert(s.take(s.len() as int) =~= s);
            lemma_inside(s, duration);
        }
        self.splits = kept;
        resize_zones(&mut self.zones, self.splits.len());
    }

    /// Leaves out the splits that are out of order, and gives every zone
    /// parameters: missing ones are plain, spare ones are dropped.
    pub fn put_in_order(&mut self)
        ensures
            final(self)@ == old(self)@.ordered(),
            final(self).wf(),
            old(self).wf() ==> final(self)@ == old(self)@,
            forall|i: int|
                0 <= i < final(self).splits@.len() ==> old(self).splits@.contains(
                    #[trigger] final(self).splits@[i],
                ),
    {
        let ghost s = self.splits@;
        let mut kept: Vec<Bits> = Vec::new();
        let mut i: usize = 0;
        proof {
            assert(s.take(0) =~= Seq::empty());
        }
        while i < self.splits.len()
            invariant
                self.splits@ == s,
                i <= s.len(),
                kept@ == ascending_part(s.take(i as int)),
            decreases s.len() - i,
        {
            proof {
                assert(s.take(i + 1).drop_last() =~= s.take(i as int));
            }
            let n: usize = kept.len();
            if self.splits[i] < INFINITY && (n == 0 || kept[n - 1] <= self.splits[i]) {
                kept.push(self.splits[i]);
            }
            i = i + 1;
        }
        proof {
            assert(s.take(s.len() as int) =~= s);
            lemma_ascending_part(s);
        }
        self.splits = kept;
        resize_zones(&mut self.zones, self.splits.len());
        proof {
            if old(self).wf() {
                assert(self@.zones =~= old(self)@.zones);
            }
        }
    }

    /// Does any zone fade in or out?
    pub fn any_fade_active(&self) -> (r: bool)
        ensures
            r == (exists|i: int|
                0 <= i < self.zones@.len() && fades(#[trigger] self.zones@[i])),
    {
        let mut i: usize = 0;
        while i < self.zones.len()
            invariant
                i <= self.zones@.len(),
                forall|k: int| 0 <= k < i ==> !fades(#[trigger] self.zones@[k]),
            decreases self.zones@.len() - i,
        {
            if less_than(0, self.zones[i].fade_in_secs) || less_than(0, self.zones[i].fade_out_secs) {
                assert(fades(self.zones@[i as int]));
                return true;
            }
            i = i + 1;
        }
        false
    }

    /// Does any zone ask for oversampling?
    pub fn needs_oversampling(&self) -> (r: bool)
        ensures
            r == (exists|i: int|
                0 <= i < self.zones@.len() && (#[trigger] self.zones@[i]).oversampling > 1),
    {
        let mut i: usize = 0;
        while i < self.zones.len()
            invariant
                i <= self.zones@.len(),
                forall|k: int| 0 <= k < i ==> (#[trigger] self.zones@[k]).oversampling <= 1,
            decreases self.zones@.len() - i,
        {
            if self.zones[i].oversampling > 1 {
                assert(self.zones@[i as int].oversampling > 1);
                return true;
            }
            i = i + 1;
        }
        false
    }

    /// Are the splits in order, as every other operation expects?
    pub fn is_in_order(&self) -> (r: bool)
        ensures
            r == in_order(self.splits@),
    {
        are_in_order(&self.splits)
    }

    /// Do its neighbours leave split `i` a place to move to?
    pub fn can_move(&self, i: usize, duration: Bits) -> (r: bool)
        requires
            self.wf(),
            i < self.splits@.len(),
            duration < INFINITY,
        ensures
            r == at_most(self@.move_floor(i as int), self@.move_ceiling(i as int, duration)),
    {
        let lo: Bits = if i == 0 {
            0
        } else {
            plus(self.splits[i - 1], SPLIT_GAP)
        };
        let n: usize = self.splits.len();
        let next: Bits = if i + 1 < n {
            self.splits[i + 1]
        } else {
            duration
        };
        is_at_most(lo, plus(next, MINUS_SPLIT_GAP))
    }

    /// A copy with the same splits and zones.
    pub fn duplicate(&self) -> (m: ZoneMap)
        ensures
            m@ == self@,
    {
        let mut splits: Vec<Bits> = Vec::new();
        let mut zones: Vec<ZoneParams> = Vec::new();
        let mut i: usize = 0;
        while i < self.splits.len()
            invariant
                i <= self.splits@.len(),
                splits@ == self.splits@.take(i as int),
            decreases self.splits@.len() - i,
        {
            splits.push(self.splits[i]);
            i = i + 1;
            assert(splits@ =~= self.splits@.take(i as int));
        }
        assert(splits@ =~= self.splits@);
        let mut j: usize = 0;
        while j < self.zones.len()
            invariant
                j <= self.zones@.len(),
                zones@ == self.zones@.take(j as int),
            decreases self.zones@.len() - j,
        {
            zones.push(self.zones[j]);
            j = j + 1;
            assert(zones@ =~= self.zones@.take(j as int));
        }
        assert(zones@ =~= self.zones@);
        ZoneMap { splits, zones }
    }
}

/// Do two zones have the same settings, within the resolution of the controls?
pub open spec fn same_zone(x: ZoneParams, y: ZoneParams) -> bool {
    &&& x.clipper == y.clipper
    &&& x.oversampling == y.oversampling
    &&& !farther(x.ceiling_db, y.ceiling_db, SMALL)
    &&& !farther(x.input_gain_db, y.input_gain_db, SMALL)
    &&& !farther(x.output_gain_db, y.output_gain_db, SMALL)
    &&& !farther(x.dc_offset, y.dc_offset, TINY)
    &&& !farther(x.fade_in_secs, y.fade_in_secs, SMALL)
    &&& !farther(x.fade_out_secs, y.fade_out_secs, SMALL)
    &&& x.dc_blocker_enabled == y.dc_blocker_enabled
    &&& !farther(x.dc_blocker_hz, y.dc_blocker_hz, COARSE)
}

/// Do two maps have the same splits and settings, within the resolution of the
/// controls?
pub open spec fn same_settings(a: MapModel, b: MapModel) -> bool {
    &&& a.splits.len() == b.splits.len()
    &&& a.zones.len() == b.zones.len()
    &&& forall|i: int| 0 <= i < a.splits.len() ==> !farther(#[trigger] a.splits[i], b.splits[i], TINY)
    &&& forall|i: int| 0 <= i < a.zones.len() ==> same_zone(#[trigger] a.zones[i], b.zones[i])
}

fn is_same_zone(x: &ZoneParams, y: &ZoneParams) -> (r: bool)
    ensures
        r == same_zone(*x, *y),
{
    x.clipper == y.clipper && x.oversampling == y.oversampling && !is_farther(
        x.ceiling_db,
        y.ceiling_db,
        SMALL,
    ) && !is_farther(x.input_gain_db, y.input_gain_db, SMALL) && !is_farther(
        x.output_gain_db,
        y.output_gain_db,
        SMALL,
    ) && !is_farther(x.dc_offset, y.dc_offset, TINY) && !is_farther(x.fade_in_secs, y.fade_in_secs, SMALL)
        && !is_farther(x.fade_out_secs, y.fade_out_secs, SMALL) && x.dc_blocker_enabled
        == y.dc_blocker_enabled && !is_farther(x.dc_blocker_hz, y.dc_blocker_hz, COARSE)
}

/// Do two maps have the same splits and settings?
pub fn zones_eq(a: &ZoneMap, b: &ZoneMap) -> (r: bool)
    ensures
        r == same_settings(a@, b@),
{
    if a.splits.len() != b.splits.len() || a.zones.len() != b.zones.len() {
        return false;
    }
    let mut i: usize = 0;
    while i < a.splits.len()
        invariant
            i <= a.splits@.len(),
            a.splits@.len() == b.splits@.len(),
            forall|k: int| 0 <= k < i ==> !farther(#[trigger] a.splits@[k], b.splits@[k], TINY),
        decreases a.splits@.len() - i,
    {
        if is_farther(a.splits[i], b.splits[i], TINY) {
            assert(farther(a@.splits[i as int], b@.splits[i as int], TINY));
            return false;
        }
        i = i + 1;
    }
    let mut j: usize = 0;
    while j < a.zones.len()
        invariant
            j <= a.zones@.len(),
            a.zones@.len() == b.zones@.len(),
            forall|k: int| 0 <= k < j ==> same_zone(#[trigger] a.zones@[k], b.zones@[k]),
        decreases a.zones@.len() - j,
    {
        if !is_same_zone(&a.zones[j], &b.zones[j]) {
            assert(!same_zone(a@.zones[j as int], b@.zones[j as int]));
            return false;
        }
        j = j + 1;
    }
    true
}

// ---- Laws -------------------------------------------------------------------

/// Removing the split that was just added restores the map, and removing one that
/// is not there changes nothing.
pub proof fn law_remove_undoes_add(m: MapModel, t: Bits)
    requires
        m.wf(),
        !crowded(m.splits, t),
    ensures
        m.with_split(t).without_split(count_before(m.splits, t) as int) == m,
        forall|i: int| i >= m.splits.len() ==> #[trigger] m.without_split(i) == m,
{
    lemma_counts(m.splits, t);
    let k = count_before(m.splits, t) as int;
    let after = m.with_split(t).without_split(k);
    assert(after.splits =~= m.splits);
    assert(after.zones =~= m.zones);
}

/// Adding a split keeps all splits at least a millisecond apart.
pub proof fn law_add_keeps_spacing(s: Seq<Bits>, t: Bits)
    requires
        in_order(s),
        t < INFINITY,
        spaced(s),
        !crowded(s, t),
    ensures
        spaced(s.insert(count_before(s, t) as int, t)),
{
    lemma_counts(s, t);
    let k = count_before(s, t) as int;
    let f = s.insert(k, t);
    assert forall|i: int, j: int| 0 <= i < f.len() && 0 <= j < f.len() && i != j implies !closer(
        #[trigger] f[i],
        #[trigger] f[j],
        SPLIT_GAP,
    ) by {
        let pi = if i < k { i } else { i - 1 };
        let pj = if j < k { j } else { j - 1 };
        if i == k {
            assert(distance(t, s[pj]) == distance(s[pj], t));
            assert(!closer(s[pj], t, SPLIT_GAP));
        } else if j == k {
            assert(!closer(s[pi], t, SPLIT_GAP));
        } else {
            assert(!closer(s[pi], s[pj], SPLIT_GAP));
        }
    }
}

/// Adding a split divides one zone and leaves every other as it was: each zone
/// of the new map has the parameters of the zone that covered its start.
pub proof fn law_add_copies_parameters(m: MapModel, t: Bits, i: int)
    requires
        m.wf(),
        !crowded(m.splits, t),
        0 <= i < m.with_split(t).zones.len(),
    ensures
        m.with_split(t).zones[i] == m.zones[if i <= count_before(m.splits, t) {
            i
        } else {
            i - 1
        }],
{
    lemma_counts(m.splits, t);
}

/// The zone at a time is the one whose stretch covers it.
pub proof fn law_zone_covers_time(m: ZoneMap, t: Bits, duration: Bits)
    requires
        m.wf(),
        t < duration < INFINITY,
    ensures
        ({
            let z = zone_of(m.splits@, t) as int;
            &&& 0 <= z < m.zones@.len()
            &&& m.start_of(z) <= t
            &&& t < m.end_of(z, duration)
        }),
{
    lemma_counts(m.splits@, t);
    lemma_zero(0);
    assert(unsigned(t) == t);
    let z = zone_of(m.splits@, t) as int;
    if z > 0 {
        assert(m.splits@[z - 1] <= t);
    }
    if z < m.splits@.len() {
        assert(!(m.splits@[z] <= t));
    }
}

/// Consecutive zones meet without gap or overlap.
pub proof fn law_zones_meet(m: ZoneMap, duration: Bits, i: int)
    requires
        m.wf(),
        0 <= i < m.zones@.len() - 1,
    ensures
        m.end_of(i, duration) == m.start_of(i + 1),
        m.start_of(i) <= m.end_of(i, duration),
{
}

/// A map has the same settings as itself.
pub proof fn law_same_settings_reflexive(m: MapModel)
    ensures
        same_settings(m, m),
{
    assert forall|a: Bits| !farther(a, a, TINY) && !farther(a, a, SMALL) && !farther(a, a, COARSE) by {
        assert(distance(a, a) == 0);
        lemma_nearest_zero();
    }
}

proof fn lemma_nearest_zero()
    ensures
        crate::rounding::nearest(0, 24) == 0,
{
    crate::rounding::lemma_nearest_bounds(0, 24);
    assert(crate::rounding::bit_len(0) == 0);
}

/// Adding a split changes no sound: every time keeps the parameters of the zone that it
/// was in.
pub proof fn law_added_split_changes_nothing(m: MapModel, t: Bits, x: Bits)
    requires
        m.wf(),
        t < INFINITY,
        x < INFINITY,
        !crowded(m.splits, t),
    ensures
        m.with_split(t).splits.len() == m.splits.len() + 1,
        m.with_split(t).splits.contains(t),
        m.with_split(t).zones[zone_of(m.with_split(t).splits, x) as int] == m.zones[zone_of(m.splits, x) as int],
{
    lemma_zero(0);
    lemma_zero(x);
    assert(unsigned(x) == x);
    assert(!less(x, 0));
    let k = count_before(m.splits, t) as int;
    lemma_counts(m.splits, t);
    lemma_counts(m.splits, x);
    let n = m.with_split(t);
    assert(n.splits[k] == t);
    assert(in_order(n.splits)) by {
        assert forall|i: int, j: int| 0 <= i < j < n.splits.len() implies n.splits[i] <= n.splits[j] by {
            let pi = if i < k { i } else { i - 1 };
            let pj = if j < k { j } else { j - 1 };
            if i != k && j != k {
                assert(m.splits[pi] <= m.splits[pj]);
            }
        }
        assert forall|i: int| 0 <= i < n.splits.len() implies #[trigger] n.splits[i] < INFINITY by {
            let pi = if i < k { i } else { i - 1 };
            if i != k {
                assert(m.splits[pi] < INFINITY);
            }
        }
    }
    lemma_counts(n.splits, x);
    let a = count_until(m.splits, x) as int;
    let b = count_until(n.splits, x) as int;
    if t <= x {
        assert(a >= k) by {
            if a < k {
                assert(m.splits[a] < t);
                assert(m.splits[a] <= x);
            }
        }
        assert(b == a + 1) by {
            if b < a + 1 {
                assert(!(n.splits[b] <= x));
                if b > k {
                    assert(n.splits[b] == m.splits[b - 1]);
                } else if b < k {
                    assert(n.splits[b] == m.splits[b]);
                }
            }
            if b > a + 1 {
                assert(n.splits[a + 1] <= x);
                assert(n.splits[a + 1] == m.splits[a]);
            }
        }
    } else {
        assert(a <= k) by {
            if a > k {
                assert(m.splits[k] <= x);
                assert(!(m.splits[k] < t));
            }
        }
        assert(b == a) by {
            if b < a {
                assert(!(n.splits[b] <= x));
                assert(n.splits[b] == m.splits[b]);
            }
            if b > a {
                assert(n.splits[a] <= x);
                if a < k {
                    assert(n.splits[a] == m.splits[a]);
                }
            }
        }
    }
}

/// Removing a split gives its zone to the one on its left and changes nothing else.
pub proof fn law_removed_split_merges(m: MapModel, i: int, x: Bits)
    requires
        m.wf(),
        0 <= i < m.splits.len(),
        x < INFINITY,
    ensures
        m.without_split(i).splits.len() == m.splits.len() - 1,
        ({
            let before = zone_of(m.splits, x) as int;
            let after = zone_of(m.without_split(i).splits, x) as int;
            m.without_split(i).zones[after] == m.zones[if before == i + 1 { i } else { before }]
        }),
{
    lemma_zero(0);
    lemma_zero(x);
    assert(unsigned(x) == x);
    let n = m.without_split(i);
    lemma_counts(m.splits, x);
    assert(in_order(n.splits)) by {
        assert forall|a: int, b: int| 0 <= a < b < n.splits.len() implies n.splits[a] <= n.splits[b] by {
            let pa = if a < i { a } else { a + 1 };
            let pb = if b < i { b } else { b + 1 };
            assert(m.splits[pa] <= m.splits[pb]);
        }
        assert forall|a: int| 0 <= a < n.splits.len() implies #[trigger] n.splits[a] < INFINITY by {
            let pa = if a < i { a } else { a + 1 };
            assert(m.splits[pa] < INFINITY);
        }
    }
    lemma_counts(n.splits, x);
    let a = count_until(m.splits, x) as int;
    let b = count_until(n.splits, x) as int;
    if m.splits[i] <= x {
        assert(a > i);
        assert(b == a - 1) by {
            if b < a - 1 {
                assert(!(n.splits[b] <= x));
                if b < i {
                    assert(n.splits[b] == m.splits[b]);
                } else {
                    assert(n.splits[b] == m.splits[b + 1]);
                }
            }
            if b > a - 1 {
                assert(n.splits[a - 1] <= x);
                assert(n.splits[a - 1] == m.splits[a]);
            }
        }
    } else {
        assert(a <= i);
        assert(b == a) by {
            if b < a {
                assert(!(n.splits[b] <= x));
                assert(n.splits[b] == m.splits[b]);
            }
            if b > a {
                assert(n.splits[a] <= x);
                if a < i {
                    assert(n.splits[a] == m.splits[a]);
                } else {
                    assert(n.splits[a] == m.splits[a + 1]);
                    assert(m.splits[i] <= m.splits[i + 1]);
                }
            }
        }
    }
}

/// Moving a split moves it alone: all others and all zones stay, it goes where it was
/// sent as far as it has room, and it never comes to lie beyond the limits that its
/// neighbours set.
pub proof fn law_move_is_local(m: MapModel, i: int, t: Bits, duration: Bits)
    requires
        m.wf(),
        0 <= i < m.splits.len(),
        !is_nan(t),
        at_most(m.move_floor(i), m.move_ceiling(i, duration)),
    ensures
        ({
            let n = m.with_moved(i, t, duration);
            &&& n.zones == m.zones
            &&& n.splits.len() == m.splits.len()
            &&& forall|j: int| 0 <= j < m.splits.len() && j != i ==> #[trigger] n.splits[j] == m.splits[j]
            &&& value(m.move_floor(i)) <= value(n.splits[i]) <= value(m.move_ceiling(i, duration))
            &&& value(m.move_floor(i)) <= value(t) <= value(m.move_ceiling(i, duration)) ==> value(n.splits[i]) == value(t)
        }),
{
}

/// Cutting a map to a file keeps exactly the splits that lie inside it, and the
/// parameters of the zones from the first on.
pub proof fn law_fitted_keeps_inside(m: MapModel, duration: Bits, x: Bits)
    ensures
        m.fitted(duration).splits.contains(x) <==> m.splits.contains(x) && less(0, x) && less(x, duration),
        m.fitted(duration).zones.len() == m.fitted(duration).splits.len() + 1,
        forall|i: int|
            0 <= i < m.zones.len() && i < m.fitted(duration).zones.len() ==> #[trigger] m.fitted(duration).zones[i]
                == m.zones[i],
        forall|i: int|
            m.zones.len() <= i < m.fitted(duration).zones.len() ==> #[trigger] m.fitted(duration).zones[i]
                == plain_zone(),
{
    lemma_inside_members(m.splits, duration, x);
}

proof fn lemma_inside_members(s: Seq<Bits>, duration: Bits, x: Bits)
    ensures
        inside(s, duration).contains(x) <==> s.contains(x) && less(0, x) && less(x, duration),
    decreases s.len(),
{
    if s.len() > 0 {
        let rest = s.drop_last();
        lemma_inside_members(rest, duration, x);
        let kept = inside(rest, duration);
        let all = inside(s, duration);
        if rest.contains(x) {
            let i = choose|i: int| 0 <= i < rest.len() && rest[i] == x;
            assert(s[i] == x);
        }
        if s.contains(x) {
            let i = choose|i: int| 0 <= i < s.len() && s[i] == x;
            if i < rest.len() {
                assert(rest[i] == x);
            }
        }
        if kept.contains(x) {
            let i = choose|i: int| 0 <= i < kept.len() && kept[i] == x;
            assert(all[i] == x);
        }
        if all.contains(x) {
            let i = choose|i: int| 0 <= i < all.len() && all[i] == x;
            if i < kept.len() {
                assert(kept[i] == x);
            }
        }
        if less(0, s.last()) && less(s.last(), duration) {
            assert(all[kept.len() as int] == s.last());
        }
        assert(s[s.len() - 1] == s.last());
    }
}

} // verus!
