//! Project files: the audio file with its zones and the view.
//!
//! A project names its audio file twice, by its full path and by the way that
//! leads there from the project's directory, so that a project survives being
//! moved together with its audio.

use vstd::prelude::*;
use crate::normalize::NormalizeMode;
use crate::settings::strings;
use crate::single::{Bits, ONE};
use crate::zones::ZoneMap;

verus! {

/// The version of the format.
pub const PROJECT_FORMAT_VERSION: u32 = 1;

/// Minus three tenths of a decibel.
pub const NORMALIZE_TARGET: Bits = 0xbe99_999a;

/// What a project remembers of the view.
#[derive(Clone, Copy, PartialEq, Eq, Debug, Structural)]
pub struct ViewState {
    pub zoom: Bits,
    pub scroll: Bits,
    pub selected_zone: usize,
    pub snap_enabled: bool,
    pub normalize_enabled: bool,
    /// How loudness is measured, if the project says so.
    pub normalize_mode: Option<NormalizeMode>,
    pub normalize_target_db: Bits,
    pub trim_start: Option<Bits>,
    pub trim_end: Option<Bits>,
}

/// A project. Paths are texts.
pub struct Project {
    pub version: u32,
    pub audio_path: String,
    pub audio_path_relative: Option<String>,
    pub zones: ZoneMap,
    pub view: ViewState,
}

/// The version of a project that does not say.
pub fn default_version() -> (v: u32)
    ensures
        v == PROJECT_FORMAT_VERSION,
{
    PROJECT_FORMAT_VERSION
}

/// The zoom of a project that does not say.
pub fn default_zoom() -> (z: Bits)
    ensures
        z == ONE,
{
    ONE
}

/// Snapping in a project that does not say.
pub fn default_snap() -> (s: bool)
    ensures
        s,
{
    true
}

/// The normalisation target of a project that does not say.
pub fn default_norm_target() -> (t: Bits)
    ensures
        t == NORMALIZE_TARGET,
{
    NORMALIZE_TARGET
}

impl Default for ViewState {
    fn default() -> (v: ViewState)
        ensures
            v == (ViewState {
                zoom: ONE,
                scroll: 0,
                selected_zone: 0,
                snap_enabled: true,
                normalize_enabled: false,
                normalize_mode: None,
                normalize_target_db: NORMALIZE_TARGET,
                trim_start: None,
                trim_end: None,
            }),
    {
        ViewState {
            zoom: default_zoom(),
            scroll: 0,
            selected_zone: 0,
            snap_enabled: default_snap(),
            normalize_enabled: false,
            normalize_mode: None,
            normalize_target_db: default_norm_target(),
            trim_start: None,
            trim_end: None,
        }
    }
}

/// Where a project's audio file was found.
#[derive(Clone, Copy, PartialEq, Eq, Debug, Structural)]
pub enum AudioPath {
    /// At its full path.
    Absolute,
    /// On the way from the project's directory.
    Relative,
    Missing,
}

/// Picks the audio file of a project: the full path where it exists, else the
/// relative one where that exists. `relative` says whether the project has a
/// relative path, the project's directory is known, and the file is there.
pub fn resolve_audio_path(absolute: bool, relative: bool) -> (r: AudioPath)
    ensures
        r is Absolute <==> absolute,
        r is Relative <==> !absolute && relative,
        r is Missing <==> !absolute && !relative,
{
    if absolute {
        AudioPath::Absolute
    } else if relative {
        AudioPath::Relative
    } else {
        AudioPath::Missing
    }
}

// ---- Ways between directories -----------------------------------------------

/// The name that leads one directory up.
pub open spec fn up() -> Seq<char> {
    seq!['.', '.']
}

/// How many steps two paths have in common.
pub open spec fn shared(a: Seq<Seq<char>>, b: Seq<Seq<char>>) -> nat
    decreases a.len(),
{
    if a.len() == 0 || b.len() == 0 || a[0] != b[0] {
        0
    } else {
        1 + shared(a.drop_first(), b.drop_first())
    }
}

/// The way from a directory to a file: up to where their paths part, and down
/// from there. Only the file's name where they have nothing in common.
pub open spec fn way(from: Seq<Seq<char>>, to: Seq<Seq<char>>) -> Seq<Seq<char>> {
    let k = shared(from, to);
    if k == 0 && from.len() > 0 {
        if to.len() > 0 {
            seq![to.last()]
        } else {
            to
        }
    } else {
        Seq::new((from.len() - k) as nat, |i: int| up()) + to.skip(k as int)
    }
}

/// Follows a way from a directory.
pub open spec fn followed(from: Seq<Seq<char>>, way: Seq<Seq<char>>) -> Seq<Seq<char>>
    decreases way.len(),
{
    if way.len() == 0 {
        from
    } else if way[0] == up() {
        followed(from.drop_last(), way.drop_first())
    } else {
        followed(from.push(way[0]), way.drop_first())
    }
}

fn count_shared(a: &Vec<String>, b: &Vec<String>) -> (k: usize)
    ensures
        k == shared(strings(a@), strings(b@)),
        k <= a@.len(),
        k <= b@.len(),
{
    let ghost sa = strings(a@);
    let ghost sb = strings(b@);
    let mut k: usize = 0;
    assert(sa.skip(0) =~= sa && sb.skip(0) =~= sb);
    while k < a.len() && k < b.len() && a[k] == b[k]
        invariant
            sa == strings(a@),
            sb == strings(b@),
            k <= a@.len(),
            k <= b@.len(),
            shared(sa, sb) == k + shared(sa.skip(k as int), sb.skip(k as int)),
        decreases a@.len() - k,
    {
        proof {
            assert(sa.skip(k as int)[0] == a@[k as int]@);
            assert(sb.skip(k as int)[0] == b@[k as int]@);
            assert(sa.skip(k as int).drop_first() =~= sa.skip(k + 1));
            assert(sb.skip(k as int).drop_first() =~= sb.skip(k + 1));
        }
        k = k + 1;
    }
    proof {
        if k < a@.len() && k < b@.len() {
            assert(sa.skip(k as int)[0] == a@[k as int]@);
            assert(sb.skip(k as int)[0] == b@[k as int]@);
        }
    }
    k
}

/// The way from a directory to a file, both given by the steps of their full
/// paths.
pub fn make_relative(from: &Vec<String>, to: &Vec<String>) -> (r: Vec<String>)
    ensures
        strings(r@) == way(strings(from@), strings(to@)),
{
    let k: usize = count_shared(from, to);
    let ghost target = strings(to@);
    let mut r: Vec<String> = Vec::new();
    if k == 0 && from.len() > 0 {
        if to.len() > 0 {
            let n: usize = to.len();
            assert(target.last() == to@[n - 1]@);
            r.push(to[n - 1].clone());
            assert(strings(r@) =~= seq![target.last()]);
        } else {
            assert(strings(r@) =~= target);
        }
        return r;
    }
    let n: usize = from.len() - k;
    let mut i: usize = 0;
    while i < n
        invariant
            i <= n,
            strings(r@) =~= Seq::new(i as nat, |j: int| up()),
        decreases n - i,
    {
        let mut step: String = String::new();
        step.push('.');
        step.push('.');
        assert(step@ =~= up());
        let ghost before = strings(r@);
        r.push(step);
        assert(strings(r@) =~= before.push(up()));
        i = i + 1;
    }
    let ghost ups = Seq::new(n as nat, |j: int| up());
    let mut j: usize = k;
    assert(target.subrange(k as int, k as int) =~= Seq::empty());
    while j < to.len()
        invariant
            target == strings(to@),
            k <= j <= to@.len(),
            strings(r@) =~= ups + target.subrange(k as int, j as int),
        decreases to@.len() - j,
    {
        let ghost before = strings(r@);
        assert(target[j as int] == to@[j as int]@);
        r.push(to[j].clone());
        assert(strings(r@) =~= before.push(target[j as int]));
        j = j + 1;
    }
    assert(target.subrange(k as int, target.len() as int) =~= target.skip(k as int));
    r
}

/// Following the way from a directory leads to the file, wherever the two paths
/// have a beginning in common and the file's path does not lead up.
pub proof fn law_way_leads_there(from: Seq<Seq<char>>, to: Seq<Seq<char>>)
    requires
        shared(from, to) > 0 || from.len() == 0,
        forall|i: int| 0 <= i < to.len() ==> #[trigger] to[i] != up(),
    ensures
        followed(from, way(from, to)) == to,
{
    let k = shared(from, to);
    lemma_shared(from, to);
    let n = (from.len() - k) as nat;
    let ups = Seq::new(n, |i: int| up());
    let down = to.skip(k as int);
    lemma_go_up(from, n, down);
    assert(from.take(from.len() - n) =~= to.take(k as int));
    lemma_go_down(to.take(k as int), down);
    assert(to.take(k as int) + down =~= to);
}

proof fn lemma_shared(a: Seq<Seq<char>>, b: Seq<Seq<char>>)
    ensures
        shared(a, b) <= a.len(),
        shared(a, b) <= b.len(),
        a.take(shared(a, b) as int) == b.take(shared(a, b) as int),
    decreases a.len(),
{
    if a.len() > 0 && b.len() > 0 && a[0] == b[0] {
        lemma_shared(a.drop_first(), b.drop_first());
        let k = shared(a, b) as int;
        let x = a.drop_first().take(k - 1);
        let y = b.drop_first().take(k - 1);
        assert(a.take(k) =~= seq![a[0]] + x);
        assert(b.take(k) =~= seq![b[0]] + y);
    } else {
        assert(a.take(0) =~= b.take(0));
    }
}

proof fn lemma_go_up(from: Seq<Seq<char>>, n: nat, down: Seq<Seq<char>>)
    requires
        n <= from.len(),
    ensures
        followed(from, Seq::new(n, |i: int| up()) + down) == followed(from.take(from.len() - n), down),
    decreases n,
{
    let w = Seq::new(n, |i: int| up()) + down;
    if n == 0 {
        assert(w =~= down);
        assert(from.take(from.len() as int) =~= from);
    } else {
        assert(w[0] == up());
        assert(w.drop_first() =~= Seq::new((n - 1) as nat, |i: int| up()) + down);
        lemma_go_up(from.drop_last(), (n - 1) as nat, down);
        assert(from.drop_last().take(from.drop_last().len() - (n - 1)) =~= from.take(from.len() - n));
    }
}

proof fn lemma_go_down(from: Seq<Seq<char>>, down: Seq<Seq<char>>)
    requires
        forall|i: int| 0 <= i < down.len() ==> #[trigger] down[i] != up(),
    ensures
        followed(from, down) == from + down,
    decreases down.len(),
{
    if down.len() == 0 {
        assert(from + down =~= from);
    } else {
        assert(down[0] != up());
        let rest = down.drop_first();
        assert forall|i: int| 0 <= i < rest.len() implies #[trigger] rest[i] != up() by {
            assert(rest[i] == down[i + 1]);
        }
        lemma_go_down(from.push(down[0]), rest);
        assert(from.push(down[0]) + rest =~= from + down);
    }
}

} // verus!
