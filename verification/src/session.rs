//! The editing session: zones, selection, normalisation and the undo history.
//!
//! The history is a list of entries with a current position. An entry is either
//! a snapshot of the zones or an Apply, which bakes the processed sound into
//! the input and starts over with plain zones. Sound buffers are known by
//! number; the program keeps the samples.

use vstd::prelude::*;
use crate::normalize::Normalize;
use crate::zones::{ZoneMap, MapModel, same_settings, zones_eq};

verus! {

/// Entries kept at most after a snapshot.
pub const HISTORY_CAP: usize = 100;

/// Applies kept at most.
pub const APPLY_CAP: usize = 5;

/// The number of a sound buffer.
pub type BufferId = u64;

/// What an Apply took and what it made.
pub struct ApplyFrame {
    pub prev_input: BufferId,
    pub prev_zones: ZoneMap,
    pub prev_normalize: Normalize,
    pub post_input: BufferId,
}

/// One entry of the history.
pub enum HistoryEntry {
    ParamChange(ZoneMap),
    Apply(ApplyFrame),
}

/// What an entry stands for.
#[verifier::ext_equal]
pub enum EntryModel {
    Params { map: MapModel },
    Apply { prev_input: BufferId, prev_map: MapModel, prev_normalize: Normalize, post_input: BufferId },
}

impl EntryModel {
    pub open spec fn is_apply(self) -> bool {
        self is Apply
    }

    /// The zones in force at the entry.
    pub open spec fn zones(self) -> MapModel {
        match self {
            EntryModel::Params { map } => map,
            EntryModel::Apply { .. } => MapModel::single(),
        }
    }

    pub open spec fn wf(self) -> bool {
        match self {
            EntryModel::Params { map } => map.wf(),
            EntryModel::Apply { prev_map, .. } => prev_map.wf(),
        }
    }
}

impl View for HistoryEntry {
    type V = EntryModel;

    open spec fn view(&self) -> EntryModel {
        match self {
            HistoryEntry::ParamChange(z) => EntryModel::Params { map: z@ },
            HistoryEntry::Apply(f) => EntryModel::Apply {
                prev_input: f.prev_input,
                prev_map: f.prev_zones@,
                prev_normalize: f.prev_normalize,
                post_input: f.post_input,
            },
        }
    }
}

/// The session of one file.
pub struct Session {
    pub zones: ZoneMap,
    pub selected_split: Option<usize>,
    pub selected_zone: Option<usize>,
    pub normalize: Normalize,
    /// The buffer that is being edited, once a file is open.
    pub input: Option<BufferId>,
    pub history: Vec<HistoryEntry>,
    pub history_pos: usize,
}

/// What a session stands for.
#[verifier::ext_equal]
pub struct SessionModel {
    pub zones: MapModel,
    pub selected_split: Option<usize>,
    pub selected_zone: Option<usize>,
    pub normalize: Normalize,
    pub input: Option<BufferId>,
    pub history: Seq<EntryModel>,
    pub pos: int,
}

pub open spec fn views(h: Seq<HistoryEntry>) -> Seq<EntryModel> {
    Seq::new(h.len(), |i: int| h[i]@)
}

impl View for Session {
    type V = SessionModel;

    open spec fn view(&self) -> SessionModel {
        SessionModel {
            zones: self.zones@,
            selected_split: self.selected_split,
            selected_zone: self.selected_zone,
            normalize: self.normalize,
            input: self.input,
            history: views(self.history@),
            pos: self.history_pos as int,
        }
    }
}

/// How many of the entries are Applies.
pub open spec fn applies(h: Seq<EntryModel>) -> nat
    decreases h.len(),
{
    if h.len() == 0 {
        0
    } else {
        applies(h.drop_last()) + if h.last().is_apply() {
            1nat
        } else {
            0nat
        }
    }
}

/// The position of the first Apply, or the length where there is none.
pub open spec fn first_apply(h: Seq<EntryModel>) -> int
    decreases h.len(),
{
    if h.len() == 0 {
        0
    } else if h[0].is_apply() {
        0
    } else {
        1 + first_apply(h.skip(1))
    }
}

/// The last Apply at or before `pos`, or -1.
pub open spec fn last_apply(h: Seq<EntryModel>, pos: int) -> int
    decreases pos + 1,
{
    if pos < 0 {
        -1
    } else if h[pos].is_apply() {
        pos
    } else {
        last_apply(h, pos - 1)
    }
}

/// The first Apply after `pos`, or the length.
pub open spec fn next_apply(h: Seq<EntryModel>, pos: int) -> int
    decreases h.len() - pos,
{
    if pos + 1 >= h.len() {
        h.len() as int
    } else if h[pos + 1].is_apply() {
        pos + 1
    } else {
        next_apply(h, pos + 1)
    }
}

/// The buffer in force at a position: what the last Apply made, or what the
/// first one took. Nothing where no Apply is known.
pub open spec fn buffer_at(h: Seq<EntryModel>, pos: int) -> Option<BufferId> {
    let last = last_apply(h, pos);
    let first = first_apply(h);
    if last >= 0 {
        Some(h[last]->post_input)
    } else if first < h.len() {
        Some(h[first]->prev_input)
    } else {
        None
    }
}

/// Each Apply takes the buffer that the one before it made.
pub open spec fn chained(h: Seq<EntryModel>) -> bool {
    forall|i: int|
        0 <= i < h.len() && (#[trigger] h[i]).is_apply() && last_apply(h, i - 1) >= 0 ==> h[i]->prev_input
            == h[last_apply(h, i - 1)]->post_input
}

/// A selection, kept inside `n` zones.
pub open spec fn selection_in(selected: Option<usize>, n: nat) -> Option<usize> {
    match selected {
        Some(i) => if i >= n {
            if n > 0 {
                Some((n - 1) as usize)
            } else {
                None
            }
        } else {
            Some(i)
        },
        None => None,
    }
}

fn keep_selection(selected: Option<usize>, n: usize) -> (r: Option<usize>)
    ensures
        r == selection_in(selected, n as nat),
{
    match selected {
        Some(i) => if i < n {
            Some(i)
        } else if n > 0 {
            Some(n - 1)
        } else {
            None
        },
        None => None,
    }
}

impl SessionModel {
    /// The position lies in the history, all zone maps are sound, at most five
    /// Applies are kept, and the buffer is the one that the history says.
    pub open spec fn wf(self) -> bool {
        &&& 0 <= self.pos < self.history.len()
        &&& self.zones.wf()
        &&& forall|i: int| 0 <= i < self.history.len() ==> (#[trigger] self.history[i]).wf()
        &&& applies(self.history) <= APPLY_CAP
        &&& chained(self.history)
        &&& applies(self.history) > 0 ==> self.input is Some && self.input == buffer_at(
            self.history,
            self.pos,
        )
    }

    /// Does a snapshot add an entry?
    pub open spec fn changed(self) -> bool {
        match self.history[self.pos] {
            EntryModel::Params { map } => !same_settings(map, self.zones),
            EntryModel::Apply { .. } => true,
        }
    }

    /// After a snapshot: the entries after the current one are dropped, the
    /// zones are added, and the oldest entries go beyond a hundred.
    pub open spec fn snapshotted(self) -> SessionModel {
        if !self.changed() {
            self
        } else {
            let h = self.history.take(self.pos + 1).push(EntryModel::Params { map: self.zones });
            let kept = if h.len() > HISTORY_CAP {
                h.skip(h.len() - HISTORY_CAP)
            } else {
                h
            };
            SessionModel { history: kept, pos: kept.len() - 1, ..self }
        }
    }

    /// The entry of an Apply that makes `post`.
    pub open spec fn apply_entry(self, post: BufferId) -> EntryModel {
        EntryModel::Apply {
            prev_input: self.input->0,
            prev_map: self.zones,
            prev_normalize: self.normalize,
            post_input: post,
        }
    }

    /// The history after an Apply: beyond five, the oldest Apply and all before
    /// it are dropped.
    pub open spec fn applied_history(self, post: BufferId) -> Seq<EntryModel> {
        let h = self.history.take(self.pos + 1).push(self.apply_entry(post));
        if applies(h) > APPLY_CAP {
            h.skip(first_apply(h) + 1)
        } else {
            h
        }
    }

    /// After an Apply that makes `post`.
    pub open spec fn applied(self, post: BufferId) -> SessionModel {
        if self.input is None {
            self
        } else {
            let h = self.applied_history(post);
            SessionModel {
                zones: MapModel::single(),
                selected_split: None,
                selected_zone: Some(0),
                normalize: Normalize { enabled: false, ..self.normalize },
                input: Some(post),
                history: h,
                pos: h.len() - 1,
            }
        }
    }

    /// The normalisation in force at a position: what the next Apply found, or
    /// off after an Apply.
    pub open spec fn normalize_at(self, pos: int) -> Normalize {
        match self.history[pos] {
            EntryModel::Apply { .. } => Normalize { enabled: false, ..self.normalize },
            EntryModel::Params { .. } => {
                let next = next_apply(self.history, pos);
                if next < self.history.len() {
                    self.history[next]->prev_normalize
                } else if last_apply(self.history, pos) >= 0 {
                    Normalize { enabled: false, ..self.normalize }
                } else {
                    self.normalize
                }
            },
        }
    }

    /// The selection, kept inside `n` zones.
    pub open spec fn kept_selection(self, n: nat) -> Option<usize> {
        selection_in(self.selected_zone, n)
    }

    /// After moving to another position of the history.
    pub open spec fn moved_to(self, pos: int) -> SessionModel {
        let zones = self.history[pos].zones();
        SessionModel {
            zones,
            selected_split: None,
            selected_zone: self.kept_selection(zones.zones.len()),
            normalize: self.normalize_at(pos),
            input: if self.input is Some && buffer_at(self.history, pos) is Some {
                buffer_at(self.history, pos)
            } else {
                self.input
            },
            pos,
            ..self
        }
    }

    /// After going back one entry. Going back across an Apply brings back what
    /// it found: the zones and the normalisation as they were, recorded or not.
    pub open spec fn undone(self) -> SessionModel {
        if self.pos > 0 {
            let there = self.moved_to(self.pos - 1);
            match self.history[self.pos] {
                EntryModel::Params { .. } => there,
                EntryModel::Apply { prev_map, prev_normalize, .. } => SessionModel {
                    zones: prev_map,
                    selected_zone: self.kept_selection(prev_map.zones.len()),
                    normalize: prev_normalize,
                    ..there
                },
            }
        } else {
            self
        }
    }

    pub open spec fn redone(self) -> SessionModel {
        if self.pos + 1 < self.history.len() {
            self.moved_to(self.pos + 1)
        } else {
            self
        }
    }

    /// A new file: plain zones, no history.
    pub open spec fn opened(input: BufferId, zones: MapModel, selected: usize, normalize: Normalize) -> SessionModel {
        SessionModel {
            zones,
            selected_split: None,
            selected_zone: Some(selected),
            normalize,
            input: Some(input),
            history: seq![EntryModel::Params { map: zones }],
            pos: 0,
        }
    }
}

// ---- Facts about the history ------------------------------------------------

pub proof fn lemma_applies_split(h: Seq<EntryModel>, k: int)
    requires
        0 <= k <= h.len(),
    ensures
        applies(h) == applies(h.take(k)) + applies(h.skip(k)),
    decreases h.len() - k,
{
    if k == h.len() {
        assert(h.take(k) =~= h);
        assert(h.skip(k) =~= Seq::empty());
    } else {
        let d = h.drop_last();
        lemma_applies_split(d, k);
        assert(d.take(k) =~= h.take(k));
        assert(h.skip(k).drop_last() =~= d.skip(k));
        assert(h.skip(k).last() == h.last());
    }
}

pub proof fn lemma_applies_push(h: Seq<EntryModel>, e: EntryModel)
    ensures
        applies(h.push(e)) == applies(h) + if e.is_apply() {
            1nat
        } else {
            0nat
        },
{
    assert(h.push(e).drop_last() =~= h);
}

/// No Apply counted means none there.
pub proof fn lemma_applies_none(h: Seq<EntryModel>)
    ensures
        applies(h) == 0 <==> (forall|i: int| 0 <= i < h.len() ==> !(#[trigger] h[i]).is_apply()),
    decreases h.len(),
{
    if h.len() > 0 {
        let d = h.drop_last();
        lemma_applies_none(d);
        if applies(h) == 0 {
            assert forall|i: int| 0 <= i < h.len() implies !(#[trigger] h[i]).is_apply() by {
                if i < d.len() {
                    assert(d[i] == h[i]);
                }
            }
        } else if forall|i: int| 0 <= i < h.len() ==> !(#[trigger] h[i]).is_apply() {
            assert forall|i: int| 0 <= i < d.len() implies !(#[trigger] d[i]).is_apply() by {
                assert(d[i] == h[i]);
            }
            assert(!h[h.len() - 1].is_apply());
        }
    }
}

pub proof fn lemma_first_apply(h: Seq<EntryModel>)
    ensures
        0 <= first_apply(h) <= h.len(),
        first_apply(h) < h.len() ==> h[first_apply(h)].is_apply(),
        forall|i: int| 0 <= i < first_apply(h) ==> !(#[trigger] h[i]).is_apply(),
        first_apply(h) < h.len() <==> applies(h) > 0,
    decreases h.len(),
{
    lemma_applies_none(h);
    if h.len() > 0 && !h[0].is_apply() {
        let t = h.skip(1);
        lemma_first_apply(t);
        assert forall|i: int| 0 <= i < first_apply(h) implies !(#[trigger] h[i]).is_apply() by {
            if i > 0 {
                assert(t[i - 1] == h[i]);
            }
        }
        if first_apply(t) < t.len() {
            assert(t[first_apply(t)] == h[first_apply(h)]);
        }
    }
}

pub proof fn lemma_last_apply(h: Seq<EntryModel>, pos: int)
    requires
        -1 <= pos < h.len(),
    ensures
        -1 <= last_apply(h, pos) <= pos,
        last_apply(h, pos) >= 0 ==> h[last_apply(h, pos)].is_apply(),
        forall|i: int| last_apply(h, pos) < i <= pos ==> !(#[trigger] h[i]).is_apply(),
    decreases pos + 1,
{
    if pos >= 0 && !h[pos].is_apply() {
        lemma_last_apply(h, pos - 1);
    }
}

/// Only the entries up to `pos` matter.
pub proof fn lemma_last_apply_prefix(a: Seq<EntryModel>, b: Seq<EntryModel>, pos: int)
    requires
        -1 <= pos < a.len(),
        pos < b.len(),
        forall|i: int| 0 <= i <= pos ==> #[trigger] a[i] == b[i],
    ensures
        last_apply(a, pos) == last_apply(b, pos),
    decreases pos + 1,
{
    if pos >= 0 {
        assert(a[pos] == b[pos]);
        if !a[pos].is_apply() {
            lemma_last_apply_prefix(a, b, pos - 1);
        }
    }
}

/// Dropping entries at the front shifts positions.
pub proof fn lemma_last_apply_skip(h: Seq<EntryModel>, k: int, pos: int)
    requires
        0 <= k <= h.len(),
        k - 1 <= pos < h.len(),
    ensures
        last_apply(h.skip(k), pos - k) == (if last_apply(h, pos) >= k {
            last_apply(h, pos) - k
        } else {
            -1
        }),
    decreases pos + 1,
{
    lemma_last_apply(h, pos);
    if pos >= k {
        assert(h.skip(k)[pos - k] == h[pos]);
        if !h[pos].is_apply() {
            lemma_last_apply_skip(h, k, pos - 1);
        }
    }
}

pub proof fn lemma_next_apply(h: Seq<EntryModel>, pos: int)
    requires
        0 <= pos < h.len(),
    ensures
        pos < next_apply(h, pos) <= h.len(),
        next_apply(h, pos) < h.len() ==> h[next_apply(h, pos)].is_apply(),
        forall|i: int| pos < i < next_apply(h, pos) ==> !(#[trigger] h[i]).is_apply(),
    decreases h.len() - pos,
{
    if pos + 1 < h.len() && !h[pos + 1].is_apply() {
        lemma_next_apply(h, pos + 1);
    }
}

proof fn lemma_chained_take(h: Seq<EntryModel>, n: int)
    requires
        chained(h),
        0 <= n <= h.len(),
    ensures
        chained(h.take(n)),
{
    let t = h.take(n);
    assert forall|i: int|
        0 <= i < t.len() && (#[trigger] t[i]).is_apply() && last_apply(t, i - 1) >= 0 implies t[i]->prev_input
        == t[last_apply(t, i - 1)]->post_input by {
        lemma_last_apply_prefix(t, h, i - 1);
        lemma_last_apply(t, i - 1);
        assert(h[i] == t[i]);
    }
}

proof fn lemma_chained_push(h: Seq<EntryModel>, e: EntryModel)
    requires
        chained(h),
        e.is_apply() && last_apply(h, h.len() - 1) >= 0 ==> e->prev_input == h[last_apply(
            h,
            h.len() - 1,
        )]->post_input,
    ensures
        chained(h.push(e)),
{
    let t = h.push(e);
    assert forall|i: int|
        0 <= i < t.len() && (#[trigger] t[i]).is_apply() && last_apply(t, i - 1) >= 0 implies t[i]->prev_input
        == t[last_apply(t, i - 1)]->post_input by {
        lemma_last_apply_prefix(t, h, i - 1);
        lemma_last_apply(t, i - 1);
        if i < h.len() {
            assert(h[i] == t[i]);
        }
    }
}

proof fn lemma_chained_skip(h: Seq<EntryModel>, k: int)
    requires
        chained(h),
        0 <= k <= h.len(),
    ensures
        chained(h.skip(k)),
{
    let t = h.skip(k);
    assert forall|i: int|
        0 <= i < t.len() && (#[trigger] t[i]).is_apply() && last_apply(t, i - 1) >= 0 implies t[i]->prev_input
        == t[last_apply(t, i - 1)]->post_input by {
        lemma_last_apply_skip(h, k, i + k - 1);
        lemma_last_apply(h, i + k - 1);
        assert(h[i + k] == t[i]);
    }
}

/// A snapshot keeps the session sound.
pub proof fn lemma_snapshot_wf(s: SessionModel)
    requires
        s.wf(),
    ensures
        s.snapshotted().wf(),
        s.changed() ==> s.snapshotted().history.len() <= HISTORY_CAP,
{
    if s.changed() {
        let p = s.history.take(s.pos + 1);
        let e = EntryModel::Params { map: s.zones };
        let h = p.push(e);
        let k = if h.len() > HISTORY_CAP {
            h.len() - HISTORY_CAP
        } else {
            0
        };
        let f = s.snapshotted().history;
        assert(h.skip(0) =~= h);
        assert(f == h.skip(k));
        lemma_applies_split(s.history, s.pos + 1);
        lemma_applies_push(p, e);
        lemma_applies_split(h, k);
        lemma_chained_take(s.history, s.pos + 1);
        lemma_chained_push(p, e);
        lemma_chained_skip(h, k);
        assert forall|i: int| 0 <= i < f.len() implies (#[trigger] f[i]).wf() by {
            assert(f[i] == h[i + k]);
            if i + k < p.len() {
                assert(h[i + k] == s.history[i + k]);
            }
        }
        if applies(f) > 0 {
            // the Apply in force is still there
            lemma_last_apply_prefix(h, s.history, s.pos);
            lemma_last_apply(s.history, s.pos);
            lemma_last_apply(h, h.len() - 1);
            assert(last_apply(h, h.len() - 1) == last_apply(h, s.pos));
            lemma_last_apply_skip(h, k, h.len() - 1);
            lemma_applies_none(f);
            let i = choose|i: int| 0 <= i < f.len() && (#[trigger] f[i]).is_apply();
            assert(f[i] == h[i + k]);
            assert(h[i + k].is_apply());
            assert(i + k <= s.pos);
            assert(s.history[i + k] == h[i + k]);
            assert(last_apply(s.history, s.pos) >= i + k);
            lemma_applies_none(s.history);
        }
    }
}

/// An Apply keeps the session sound.
pub proof fn lemma_apply_wf(s: SessionModel, post: BufferId)
    requires
        s.wf(),
    ensures
        s.applied(post).wf(),
{
    if s.input is Some {
        let p = s.history.take(s.pos + 1);
        let e = s.apply_entry(post);
        let h = p.push(e);
        lemma_applies_split(s.history, s.pos + 1);
        lemma_applies_push(p, e);
        lemma_chained_take(s.history, s.pos + 1);
        lemma_last_apply_prefix(p, s.history, s.pos);
        lemma_last_apply(s.history, s.pos);
        if last_apply(s.history, s.pos) >= 0 {
            lemma_applies_none(s.history);
        }
        lemma_chained_push(p, e);
        lemma_first_apply(h);
        let k = if applies(h) > APPLY_CAP {
            first_apply(h) + 1
        } else {
            0
        };
        let f = s.applied_history(post);
        assert(h.skip(0) =~= h);
        assert(f == h.skip(k));
        lemma_applies_split(h, k);
        lemma_chained_skip(h, k);
        if k > 0 {
            // exactly one Apply is dropped, and it is not the new one
            let dropped = h.take(k);
            assert(dropped.drop_last() =~= h.take(k - 1));
            assert(dropped.last() == h[k - 1]);
            lemma_applies_none(h.take(k - 1));
            assert(applies(dropped) == 1);
            if k == h.len() {
                assert(h.take(k) =~= h);
            }
        }
        assert forall|i: int| 0 <= i < f.len() implies (#[trigger] f[i]).wf() by {
            assert(f[i] == h[i + k]);
            if i + k < p.len() {
                assert(h[i + k] == s.history[i + k]);
            }
        }
        assert(f.len() > 0);
        assert(f[f.len() - 1] == e);
        assert(MapModel::single().wf());
    }
}

/// Moving through the history keeps the session sound.
pub proof fn lemma_move_wf(s: SessionModel, pos: int)
    requires
        s.wf(),
        0 <= pos < s.history.len(),
    ensures
        s.moved_to(pos).wf(),
{
    assert(s.history[pos].wf());
    assert(MapModel::single().wf());
    lemma_first_apply(s.history);
}

// ---- Operations -------------------------------------------------------------

proof fn lemma_views_take(h: Seq<HistoryEntry>, k: int)
    requires
        0 <= k <= h.len(),
    ensures
        views(h.take(k)) == views(h).take(k),
        views(h.skip(k)) == views(h).skip(k),
{
    assert(views(h.take(k)) =~= views(h).take(k));
    assert(views(h.skip(k)) =~= views(h).skip(k));
}

proof fn lemma_views_push(h: Seq<HistoryEntry>, e: HistoryEntry)
    ensures
        views(h.push(e)) == views(h).push(e@),
{
    assert(views(h.push(e)) =~= views(h).push(e@));
}

impl Session {
    pub open spec fn wf(&self) -> bool {
        self@.wf()
    }

    /// Nothing open yet.
    pub fn new() -> (s: Session)
        ensures
            s.wf(),
            s@ == (SessionModel {
                input: None,
                ..SessionModel::opened(0, MapModel::single(), 0, Normalize::off())
            }),
    {
        let mut history: Vec<HistoryEntry> = Vec::new();
        history.push(HistoryEntry::ParamChange(ZoneMap::new()));
        let s = Session {
            zones: ZoneMap::new(),
            selected_split: None,
            selected_zone: Some(0),
            normalize: Normalize::new(),
            input: None,
            history,
            history_pos: 0,
        };
        proof {
            assert(views(s.history@) =~= seq![EntryModel::Params { map: MapModel::single() }]);
            lemma_single_entry(s@.history);
        }
        s
    }

    /// Opens a file: its zones, the selected zone and the normalisation that
    /// come with it, and an empty history.
    pub fn open(&mut self, input: BufferId, zones: ZoneMap, selected: usize, normalize: Normalize)
        requires
            zones.wf(),
        ensures
            final(self).wf(),
            final(self)@ == SessionModel::opened(input, zones@, selected, normalize),
    {
        let mut history: Vec<HistoryEntry> = Vec::new();
        history.push(HistoryEntry::ParamChange(zones.duplicate()));
        self.zones = zones;
        self.selected_split = None;
        self.selected_zone = Some(selected);
        self.normalize = normalize;
        self.input = Some(input);
        self.history = history;
        self.history_pos = 0;
        proof {
            assert(views(self.history@) =~= seq![EntryModel::Params { map: zones@ }]);
            lemma_single_entry(self@.history);
        }
    }

    /// Records the zones in the history, unless nothing changed.
    pub fn snapshot(&mut self)
        requires
            old(self).wf(),
        ensures
            final(self).wf(),
            final(self)@ == old(self)@.snapshotted(),
    {
        let ghost s = self@;
        let same: bool = match &self.history[self.history_pos] {
            HistoryEntry::ParamChange(cur) => zones_eq(cur, &self.zones),
            HistoryEntry::Apply(_) => false,
        };
        assert(s.history[s.pos] == self.history@[self.history_pos as int]@);
        if same {
            return;
        }
        proof {
            lemma_snapshot_wf(s);
            lemma_views_take(self.history@, self.history_pos + 1);
            assert(self.history_pos < self.history.len());
        }
        self.history.truncate(self.history_pos + 1);
        let entry = HistoryEntry::ParamChange(self.zones.duplicate());
        proof {
            lemma_views_push(self.history@, entry);
        }
        self.history.push(entry);
        let len: usize = self.history.len();
        if len > HISTORY_CAP {
            let spare: usize = len - HISTORY_CAP;
            proof {
                lemma_views_take(self.history@, spare as int);
            }
            let kept: Vec<HistoryEntry> = self.history.split_off(spare);
            self.history = kept;
        }
        self.history_pos = self.history.len() - 1;
        proof {
            assert(self@ =~= s.snapshotted());
        }
    }

    fn count_applies(&self) -> (n: usize)
        ensures
            n == applies(views(self.history@)),
    {
        let mut n: usize = 0;
        let mut i: usize = 0;
        let ghost h = views(self.history@);
        proof {
            assert(h.take(0) =~= Seq::empty());
        }
        while i < self.history.len()
            invariant
                i <= self.history@.len(),
                h == views(self.history@),
                n == applies(h.take(i as int)),
                n <= i,
            decreases self.history@.len() - i,
        {
            proof {
                assert(h.take(i + 1).drop_last() =~= h.take(i as int));
                assert(h.take(i + 1).last() == self.history@[i as int]@);
            }
            match &self.history[i] {
                HistoryEntry::Apply(_) => {
                    n = n + 1;
                },
                HistoryEntry::ParamChange(_) => {},
            }
            i = i + 1;
        }
        proof {
            assert(h.take(h.len() as int) =~= h);
        }
        n
    }

    fn find_first_apply(&self) -> (k: usize)
        ensures
            k == first_apply(views(self.history@)),
    {
        let ghost h = views(self.history@);
        proof {
            lemma_first_apply(h);
        }
        let mut i: usize = 0;
        while i < self.history.len()
            invariant
                i <= self.history@.len(),
                h == views(self.history@),
                forall|k: int| 0 <= k < i ==> !(#[trigger] h[k]).is_apply(),
                0 <= first_apply(h) <= h.len(),
                first_apply(h) < h.len() ==> h[first_apply(h)].is_apply(),
                forall|k: int| 0 <= k < first_apply(h) ==> !(#[trigger] h[k]).is_apply(),
            decreases self.history@.len() - i,
        {
            assert(h[i as int] == self.history@[i as int]@);
            match &self.history[i] {
                HistoryEntry::Apply(_) => {
                    return i;
                },
                HistoryEntry::ParamChange(_) => {},
            }
            i = i + 1;
        }
        i
    }

    /// Bakes the processed sound: `post` becomes the input, and editing starts
    /// over with plain zones and without normalisation. Does nothing where no
    /// file is open.
    pub fn apply(&mut self, post: BufferId)
        requires
            old(self).wf(),
        ensures
            final(self).wf(),
            final(self)@ == old(self)@.applied(post),
    {
        let ghost s = self@;
        let input: BufferId = match self.input {
            None => {
                return;
            },
            Some(b) => b,
        };
        proof {
            lemma_apply_wf(s, post);
            lemma_views_take(self.history@, self.history_pos + 1);
            assert(self.history_pos < self.history.len());
        }
        let entry = HistoryEntry::Apply(
            ApplyFrame {
                prev_input: input,
                prev_zones: self.zones.duplicate(),
                prev_normalize: self.normalize,
                post_input: post,
            },
        );
        self.history.truncate(self.history_pos + 1);
        proof {
            lemma_views_push(self.history@, entry);
        }
        self.history.push(entry);
        let n: usize = self.count_applies();
        if n > APPLY_CAP {
            let first: usize = self.find_first_apply();
            proof {
                lemma_first_apply(views(self.history@));
                lemma_views_take(self.history@, first + 1);
                assert(first < self.history.len());
            }
            let kept: Vec<HistoryEntry> = self.history.split_off(first + 1);
            self.history = kept;
        }
        proof {
            assert(views(self.history@) == s.applied_history(post));
            assert(self.history@.len() > 0);
        }
        self.history_pos = self.history.len() - 1;
        self.zones = ZoneMap::new();
        self.normalize.enabled = false;
        self.selected_zone = Some(0);
        self.selected_split = None;
        self.input = Some(post);
        proof {
            assert(self@ =~= s.applied(post));
        }
    }

    /// The last Apply at or before `pos`.
    fn find_last_apply(&self, pos: usize) -> (r: Option<usize>)
        requires
            pos < self.history@.len(),
        ensures
            match r {
                Some(k) => k == last_apply(views(self.history@), pos as int),
                None => last_apply(views(self.history@), pos as int) == -1,
            },
    {
        let ghost h = views(self.history@);
        assert(pos < self.history.len());
        let mut i: usize = pos + 1;
        while i > 0
            invariant
                i <= pos + 1 <= self.history@.len(),
                h == views(self.history@),
                last_apply(h, i - 1) == last_apply(h, pos as int),
            decreases i,
        {
            i = i - 1;
            assert(h[i as int] == self.history@[i as int]@);
            match &self.history[i] {
                HistoryEntry::Apply(_) => {
                    return Some(i);
                },
                HistoryEntry::ParamChange(_) => {},
            }
        }
        None
    }

    /// The first Apply after `pos`.
    fn find_next_apply(&self, pos: usize) -> (r: usize)
        requires
            pos < self.history@.len(),
        ensures
            r == next_apply(views(self.history@), pos as int),
    {
        let ghost h = views(self.history@);
        let n: usize = self.history.len();
        let mut i: usize = pos + 1;
        while i < n
            invariant
                pos < i <= n,
                n == self.history@.len(),
                h == views(self.history@),
                next_apply(h, i - 1) == next_apply(h, pos as int),
            decreases n - i,
        {
            assert(h[i as int] == self.history@[i as int]@);
            match &self.history[i] {
                HistoryEntry::Apply(_) => {
                    return i;
                },
                HistoryEntry::ParamChange(_) => {},
            }
            i = i + 1;
        }
        n
    }

    /// Takes over the state of another position of the history.
    fn move_to(&mut self, pos: usize)
        requires
            old(self).wf(),
            pos < old(self).history@.len(),
        ensures
            final(self).wf(),
            final(self)@ == old(self)@.moved_to(pos as int),
    {
        let ghost s = self@;
        proof {
            lemma_move_wf(s, pos as int);
            lemma_last_apply(s.history, pos as int);
            lemma_next_apply(s.history, pos as int);
            lemma_first_apply(s.history);
        }
        let last: Option<usize> = self.find_last_apply(pos);
        let next: usize = self.find_next_apply(pos);
        let first: usize = self.find_first_apply();
        assert(forall|i: int| 0 <= i < s.history.len() ==> #[trigger] s.history[i] == self.history@[i]@);
        let buffer: Option<BufferId> = match last {
            Some(k) => match &self.history[k] {
                HistoryEntry::Apply(f) => Some(f.post_input),
                HistoryEntry::ParamChange(_) => None,
            },
            None => if first < self.history.len() {
                match &self.history[first] {
                    HistoryEntry::Apply(f) => Some(f.prev_input),
                    HistoryEntry::ParamChange(_) => None,
                }
            } else {
                None
            },
        };
        assert(buffer == buffer_at(s.history, pos as int));
        let mut normalize: Normalize = self.normalize;
        let zones: ZoneMap = match &self.history[pos] {
            HistoryEntry::ParamChange(z) => {
                if next < self.history.len() {
                    match &self.history[next] {
                        HistoryEntry::Apply(f) => {
                            normalize = f.prev_normalize;
                        },
                        HistoryEntry::ParamChange(_) => {},
                    }
                } else if last.is_some() {
                    normalize.enabled = false;
                }
                z.duplicate()
            },
            HistoryEntry::Apply(_) => {
                normalize.enabled = false;
                ZoneMap::new()
            },
        };
        assert(normalize == s.normalize_at(pos as int));
        assert(zones@ == s.history[pos as int].zones());
        self.zones = zones;
        self.normalize = normalize;
        if self.input.is_some() && buffer.is_some() {
            self.input = buffer;
        }
        self.selected_zone = keep_selection(self.selected_zone, self.zones.zones.len());
        self.selected_split = None;
        self.history_pos = pos;
        proof {
            assert(self@ =~= s.moved_to(pos as int));
        }
    }

    /// Is there an entry to go back to?
    pub fn can_undo(&self) -> (r: bool)
        ensures
            r == (self@.pos > 0),
            !r ==> self@.undone() == self@,
    {
        self.history_pos > 0
    }

    /// Is there an entry to go forward to?
    pub fn can_redo(&self) -> (r: bool)
        requires
            self.wf(),
        ensures
            r == (self@.pos + 1 < self@.history.len()),
            !r ==> self@.redone() == self@,
    {
        self.history_pos < self.history.len() - 1
    }

    /// Goes back one entry. Tells whether there was one.
    pub fn undo(&mut self) -> (moved: bool)
        requires
            old(self).wf(),
        ensures
            final(self).wf(),
            final(self)@ == old(self)@.undone(),
            moved == (old(self)@.pos > 0),
    {
        if self.history_pos == 0 {
            return false;
        }
        let ghost s = self@;
        assert(s.history[s.pos].wf());
        assert(s.history[s.pos] == self.history@[s.pos]@);
        let found: Option<(ZoneMap, Normalize)> = match &self.history[self.history_pos] {
            HistoryEntry::ParamChange(_) => None,
            HistoryEntry::Apply(f) => Some((f.prev_zones.duplicate(), f.prev_normalize)),
        };
        let selected: Option<usize> = self.selected_zone;
        let pos: usize = self.history_pos - 1;
        self.move_to(pos);
        if let Some((zones, normalize)) = found {
            self.selected_zone = keep_selection(selected, zones.zones.len());
            self.zones = zones;
            self.normalize = normalize;
        }
        proof {
            assert(self@ =~= s.undone());
        }
        true
    }

    /// Goes forward one entry. Tells whether there was one.
    pub fn redo(&mut self) -> (moved: bool)
        requires
            old(self).wf(),
        ensures
            final(self).wf(),
            final(self)@ == old(self)@.redone(),
            moved == (old(self)@.pos + 1 < old(self)@.history.len()),
    {
        if self.history_pos < self.history.len() - 1 {
            let pos: usize = self.history_pos + 1;
            self.move_to(pos);
            true
        } else {
            false
        }
    }

    /// How many Applies are in force: those at or before the current entry, at
    /// most five.
    pub fn active_applies(&self) -> (n: usize)
        requires
            self.wf(),
        ensures
            n == applies(self@.history.take(self@.pos + 1)),
            n <= APPLY_CAP,
    {
        let mut n: usize = 0;
        let mut i: usize = 0;
        let ghost h = views(self.history@);
        proof {
            assert(h.take(0) =~= Seq::empty());
            lemma_applies_split(h, self.history_pos + 1);
        }
        while i <= self.history_pos
            invariant
                i <= self.history_pos + 1 <= self.history@.len(),
                h == views(self.history@),
                n == applies(h.take(i as int)),
                n <= i,
            decreases self.history_pos + 1 - i,
        {
            proof {
                assert(h.take(i + 1).drop_last() =~= h.take(i as int));
                assert(h.take(i + 1).last() == self.history@[i as int]@);
                assert(i < self.history.len());
            }
            match &self.history[i] {
                HistoryEntry::Apply(_) => {
                    n = n + 1;
                },
                HistoryEntry::ParamChange(_) => {},
            }
            i = i + 1;
        }
        n
    }
}

proof fn lemma_single_entry(h: Seq<EntryModel>)
    requires
        h.len() == 1,
        !h[0].is_apply(),
    ensures
        applies(h) == 0,
        chained(h),
{
    lemma_applies_none(h);
}

// ---- Laws -------------------------------------------------------------------

/// Undo brings back the zones of the entry before, or what an Apply found, and
/// redo those of the entry after.
pub proof fn law_undo_redo_restore_zones(s: SessionModel)
    requires
        s.wf(),
    ensures
        s.pos > 0 && !s.history[s.pos].is_apply() ==> s.undone().zones == s.history[s.pos - 1].zones(),
        s.pos > 0 && s.history[s.pos].is_apply() ==> s.undone().zones == s.history[s.pos]->prev_map,
        s.pos + 1 < s.history.len() ==> s.redone().zones == s.history[s.pos + 1].zones(),
        s.undone().history == s.history,
        s.redone().history == s.history,
{
}

/// Moving away and back gives the same buffer.
proof fn lemma_there_and_back(s: SessionModel, pos: int)
    requires
        s.wf(),
        0 <= pos < s.history.len(),
    ensures
        s.moved_to(pos).moved_to(s.pos).input == s.input,
        s.moved_to(pos).moved_to(s.pos).zones == s.history[s.pos].zones(),
{
    lemma_first_apply(s.history);
    lemma_last_apply(s.history, pos);
    lemma_last_apply(s.history, s.pos);
    lemma_applies_none(s.history);
}

/// Redo undoes undo: history and position are back, and so are the zones, the
/// buffer and (in a session without Apply) the normalisation, where the zones
/// were recorded.
pub proof fn law_redo_undoes_undo(s: SessionModel)
    requires
        s.wf(),
        s.pos > 0,
        s.zones == s.history[s.pos].zones(),
    ensures
        s.undone().redone().history == s.history,
        s.undone().redone().pos == s.pos,
        s.undone().redone().zones == s.zones,
        s.undone().redone().input == s.input,
        applies(s.history) == 0 ==> s.undone().redone().normalize == s.normalize,
{
    lemma_there_and_back(s, s.pos - 1);
    if applies(s.history) == 0 {
        lemma_applies_none(s.history);
        lemma_last_apply(s.history, s.pos);
        lemma_last_apply(s.history, s.pos - 1);
        lemma_next_apply(s.history, s.pos - 1);
        lemma_next_apply(s.history, s.pos);
    }
}

/// Undo undoes redo. Where an Apply was redone, the zones are those that it
/// found.
pub proof fn law_undo_undoes_redo(s: SessionModel)
    requires
        s.wf(),
        s.pos + 1 < s.history.len(),
        s.zones == s.history[s.pos].zones(),
    ensures
        s.redone().undone().history == s.history,
        s.redone().undone().pos == s.pos,
        s.redone().undone().zones == (if s.history[s.pos + 1].is_apply() {
            s.history[s.pos + 1]->prev_map
        } else {
            s.zones
        }),
        s.redone().undone().input == s.input,
{
    lemma_there_and_back(s, s.pos + 1);
}

/// A recorded change can be undone: going back from it gives the zones of the
/// entry that was current before.
pub proof fn law_snapshot_can_be_undone(s: SessionModel)
    requires
        s.wf(),
        s.changed(),
        s.pos + 1 < HISTORY_CAP,
    ensures
        s.snapshotted().pos == s.pos + 1,
        s.snapshotted().undone().zones == s.history[s.pos].zones(),
        s.snapshotted().undone().redone().zones == s.zones,
{
    lemma_snapshot_wf(s);
    let h = s.snapshotted().history;
    assert(h[s.pos] == s.history[s.pos]);
    assert(h[s.pos + 1] == EntryModel::Params { map: s.zones });
}

/// Recording twice records once.
pub proof fn law_snapshot_twice(s: SessionModel)
    requires
        s.wf(),
    ensures
        s.snapshotted().snapshotted() == s.snapshotted(),
{
    if s.changed() {
        let t = s.snapshotted();
        assert(t.history[t.pos] == EntryModel::Params { map: s.zones });
        crate::zones::law_same_settings_reflexive(s.zones);
    }
}

/// A recorded change drops what could have been redone.
pub proof fn law_snapshot_drops_redo(s: SessionModel)
    requires
        s.wf(),
        s.changed(),
    ensures
        s.snapshotted().redone() == s.snapshotted(),
        s.snapshotted().history.len() <= HISTORY_CAP,
{
    lemma_snapshot_wf(s);
}

/// Undoing an Apply brings back all that it found: the buffer, the zones,
/// recorded or not, and the normalisation.
pub proof fn law_undo_apply_restores_state(s: SessionModel, post: BufferId)
    requires
        s.wf(),
        s.input is Some,
        s.applied(post).pos > 0,
    ensures
        s.applied(post).undone().input == s.input,
        s.applied(post).undone().zones == s.zones,
        s.applied(post).undone().normalize == s.normalize,
{
    let p = s.history.take(s.pos + 1);
    let e = s.apply_entry(post);
    let h = p.push(e);
    let a = s.applied(post);
    lemma_apply_wf(s, post);
    lemma_first_apply(h);
    lemma_applies_push(p, e);
    let k = if applies(h) > APPLY_CAP {
        first_apply(h) + 1
    } else {
        0
    };
    assert(h.skip(0) =~= h);
    assert(a.history == h.skip(k));
    assert(a.history[a.pos] == e);
    assert(a.history[a.pos - 1] == s.history[s.pos]);
    lemma_last_apply_prefix(h, s.history, s.pos);
    lemma_last_apply_skip(h, k, s.pos);
    lemma_last_apply(s.history, s.pos);
    lemma_last_apply(a.history, a.pos - 1);
    lemma_first_apply(a.history);
    lemma_applies_none(a.history);
    lemma_applies_none(s.history);
    let b = a.pos - 1;
    if last_apply(a.history, b) >= 0 {
        assert(a.history[last_apply(a.history, b)] == h[last_apply(h, s.pos)]);
        assert(h[last_apply(h, s.pos)] == s.history[last_apply(s.history, s.pos)]);
    } else {
        // the new Apply is the first one left, and it took the input
        assert(first_apply(a.history) == a.pos) by {
            assert(a.history[a.pos].is_apply());
            assert(forall|i: int| 0 <= i <= b ==> !(#[trigger] a.history[i]).is_apply());
        }
    }
}

/// Redoing an undone Apply makes its result the input again.
pub proof fn law_redo_apply_restores_result(s: SessionModel, post: BufferId)
    requires
        s.wf(),
        s.input is Some,
        s.applied(post).pos > 0,
    ensures
        s.applied(post).undone().redone().input == Some(post),
        s.applied(post).undone().redone().zones == MapModel::single(),
{
    lemma_apply_wf(s, post);
    let a = s.applied(post);
    lemma_move_wf(a, a.pos - 1);
    let p = s.history.take(s.pos + 1);
    let e = s.apply_entry(post);
    let h = p.push(e);
    lemma_first_apply(h);
    assert(a.history[a.pos] == e);
}

/// Every operation keeps the position inside the history, at most five
/// Applies, and the buffer that the history says.
pub proof fn law_operations_keep_session_sound(s: SessionModel, post: BufferId)
    requires
        s.wf(),
    ensures
        s.snapshotted().wf(),
        s.applied(post).wf(),
        s.undone().wf(),
        s.redone().wf(),
{
    lemma_snapshot_wf(s);
    lemma_apply_wf(s, post);
    if s.pos > 0 {
        lemma_move_wf(s, s.pos - 1);
    }
    if s.pos + 1 < s.history.len() {
        lemma_move_wf(s, s.pos + 1);
    }
}

} // verus!
