//! The sounds that a session refers to by number: the file that was opened, and what
//! every Apply baked. Each is kept with its mix to one channel, so a sound that the
//! history brings back comes with the mix that it had.

use vstd::prelude::*;
use crate::audio_io::{AudioBuffer, at_least_one};
use crate::editor::{Editor, EditorModel, FileInfo, Msg, step};
use crate::effects::{Effects, quiet, quiet_effects};
use crate::envelope::{mono_from_interleaved, mono_mix, quick_mix};
use crate::functions::{Function, is_total};
use crate::jobs::{copied, is_processed, render_sound};
use crate::plan::{or_else, trim_frames};
use crate::render::none_oversampled;
use crate::session::{APPLY_CAP, BufferId, EntryModel, applies, law_undo_apply_restores_state, lemma_applies_push, lemma_apply_wf, lemma_first_apply};
use crate::single::Bits;
use crate::zones::MapModel;

verus! {

/// A sound under its number, with its mix to one channel.
pub struct Sound {
    pub id: BufferId,
    pub samples: Vec<Bits>,
    pub raw_mono: Vec<Bits>,
}

/// What a sound stands for.
#[verifier::ext_equal]
pub struct SoundModel {
    pub id: BufferId,
    pub samples: Seq<Bits>,
    pub raw_mono: Seq<Bits>,
}

impl Sound {
    pub open spec fn model(self) -> SoundModel {
        SoundModel { id: self.id, samples: self.samples@, raw_mono: self.raw_mono@ }
    }
}

/// The sounds that are kept, in the order of their numbers, and the next number.
pub struct Shelf {
    pub sounds: Vec<Sound>,
    pub next: BufferId,
}

/// What a shelf stands for.
#[verifier::ext_equal]
pub struct ShelfModel {
    pub sounds: Seq<SoundModel>,
    pub next: BufferId,
}

/// The sound of that number, where there is one.
pub open spec fn found(sounds: Seq<SoundModel>, id: BufferId) -> Option<SoundModel>
    decreases sounds.len(),
{
    if sounds.len() == 0 {
        None
    } else if sounds.last().id == id {
        Some(sounds.last())
    } else {
        found(sounds.drop_last(), id)
    }
}

impl ShelfModel {
    /// No sound has a number that is still to come.
    pub open spec fn wf(self) -> bool {
        forall|i: int| 0 <= i < self.sounds.len() ==> (#[trigger] self.sounds[i]).id < self.next
    }

    /// The sound of that number, where there is one.
    pub open spec fn sound(self, id: BufferId) -> Option<SoundModel> {
        found(self.sounds, id)
    }

    /// After one more sound was put on it.
    pub open spec fn with(self, samples: Seq<Bits>, raw_mono: Seq<Bits>) -> ShelfModel {
        ShelfModel {
            sounds: self.sounds.push(SoundModel { id: self.next, samples, raw_mono }),
            next: (self.next + 1) as u64,
        }
    }

    /// After a file was opened: nothing but its sound, mixed by division.
    pub open spec fn opened(self, samples: Seq<Bits>, channels: u16) -> ShelfModel {
        ShelfModel { sounds: Seq::empty(), ..self }.with(samples, mono_mix(samples, at_least_one(channels)))
    }

    /// After an Apply baked a sound. It is mixed as every rendering is.
    pub open spec fn baked(self, samples: Seq<Bits>, channels: u16) -> ShelfModel {
        self.with(samples, quick_mix(samples, at_least_one(channels)))
    }
}

impl View for Shelf {
    type V = ShelfModel;

    open spec fn view(&self) -> ShelfModel {
        ShelfModel {
            sounds: self.sounds@.map_values(|s: Sound| s.model()),
            next: self.next,
        }
    }
}

impl Shelf {
    pub open spec fn wf(&self) -> bool {
        self@.wf()
    }

    /// An empty shelf. Numbers begin at one.
    pub fn new() -> (s: Shelf)
        ensures
            s.wf(),
            s@ == (ShelfModel { sounds: Seq::empty(), next: 1 }),
    {
        let s = Shelf { sounds: Vec::new(), next: 1 };
        assert(s@.sounds =~= Seq::empty());
        s
    }

    fn put(&mut self, samples: Vec<Bits>, raw_mono: Vec<Bits>) -> (id: BufferId)
        requires
            old(self).wf(),
            old(self).next < u64::MAX,
        ensures
            final(self).wf(),
            final(self)@ == old(self)@.with(samples@, raw_mono@),
            id == old(self).next,
    {
        let id: BufferId = self.next;
        self.sounds.push(Sound { id, samples, raw_mono });
        self.next = id + 1;
        proof {
            assert(self@.sounds =~= old(self)@.with(samples@, raw_mono@).sounds);
            assert forall|i: int| 0 <= i < self@.sounds.len() implies (#[trigger] self@.sounds[i]).id < self.next by {
                if i < old(self)@.sounds.len() {
                    assert(self@.sounds[i] == old(self)@.sounds[i]);
                }
            }
        }
        id
    }

    /// Keeps the sound of a file that was opened, and nothing else.
    pub fn open(&mut self, buf: &AudioBuffer) -> (id: BufferId)
        requires
            old(self).wf(),
            old(self).next < u64::MAX,
        ensures
            final(self).wf(),
            final(self)@ == old(self)@.opened(buf.samples@, buf.channels),
            id == old(self).next,
    {
        let mono: Vec<Bits> = buf.to_mono();
        self.sounds = Vec::new();
        assert(self@.sounds =~= Seq::empty());
        self.put(copied(&buf.samples), mono)
    }

    /// Keeps a sound that an Apply baked.
    pub fn bake(&mut self, samples: Vec<Bits>, channels: u16) -> (id: BufferId)
        requires
            old(self).wf(),
            old(self).next < u64::MAX,
        ensures
            final(self).wf(),
            final(self)@ == old(self)@.baked(samples@, channels),
            id == old(self).next,
    {
        let mono: Vec<Bits> = mono_from_interleaved(&samples, channels);
        self.put(samples, mono)
    }

    /// The sound of that number, where there is one.
    pub fn get(&self, id: BufferId) -> (r: Option<&Sound>)
        ensures
            match r {
                Some(s) => self@.sound(id) == Some(s.model()),
                None => self@.sound(id) is None,
            },
    {
        let mut n: usize = self.sounds.len();
        assert(self@.sounds.take(n as int) =~= self@.sounds);
        while n > 0
            invariant
                n <= self.sounds@.len(),
                found(self@.sounds.take(n as int), id) == self@.sound(id),
            decreases n,
        {
            n = n - 1;
            let ghost t = self@.sounds.take(n + 1);
            assert(t.drop_last() =~= self@.sounds.take(n as int));
            assert(t.last() == self.sounds@[n as int].model());
            if self.sounds[n].id == id {
                return Some(&self.sounds[n]);
            }
        }
        None
    }
}

// ---- Apply ------------------------------------------------------------------

/// The sound that is edited, where there is one, and what is known of its file.
pub open spec fn edited(e: EditorModel, k: ShelfModel) -> Option<(FileInfo, SoundModel)> {
    match (e.file, e.session.input) {
        (Some(f), Some(id)) => match k.sound(id) {
            Some(s) => Some((f, s)),
            None => None,
        },
        _ => None,
    }
}

/// The frames that the trim handles of an editor keep.
pub open spec fn kept_frames(e: EditorModel, f: FileInfo) -> Option<(usize, usize)> {
    trim_frames(
        or_else(e.trim.start, 0),
        or_else(e.trim.end, f.duration),
        f.duration,
        f.sample_rate,
        f.frames as nat,
    )
}

/// `out` is what an Apply bakes of a sound: rendered with the zones in force, without
/// oversampling, then normalised as it is set.
#[verifier::opaque]
pub open spec fn is_baked<M: Fn(Function, Bits) -> Bits, L: Fn(&Vec<Bits>) -> Option<Bits>>(
    m: &M,
    meter: &L,
    ed: &Editor,
    f: FileInfo,
    samples: Seq<Bits>,
    out: Seq<Bits>,
) -> bool {
    exists|gain: Bits|
        is_processed(
            m,
            meter,
            samples,
            f.channels,
            f.sample_rate,
            &ed.session.zones,
            ed.session.normalize,
            kept_frames(ed@, f),
            none_oversampled(ed.session.zones.zones@.len()),
            (out, gain),
        )
}

/// What an Apply bakes of a sound.
pub fn bake_sound<M: Fn(Function, Bits) -> Bits, L: Fn(&Vec<Bits>) -> Option<Bits>>(
    m: &M,
    meter: &L,
    ed: &Editor,
    f: FileInfo,
    samples: &Vec<Bits>,
) -> (out: Vec<Bits>)
    requires
        is_total(m),
        forall|v: Vec<Bits>| #[trigger] call_requires(*meter, (&v,)),
        ed.wf(),
        ed.file == Some(f),
    ensures
        is_baked(m, meter, ed, f, samples@, out@),
{
    proof {
        reveal(is_baked);
    }
    let trim: Option<(usize, usize)> = ed.trim.window(f.sample_rate, f.frames, f.duration);
    let (sound, gain): (Vec<Bits>, Bits) = render_sound(
        m,
        meter,
        samples,
        f.channels,
        f.sample_rate,
        &ed.session.zones,
        ed.session.normalize,
        trim,
        false,
    );
    assert(is_processed(
        m,
        meter,
        samples@,
        f.channels,
        f.sample_rate,
        &ed.session.zones,
        ed.session.normalize,
        kept_frames(ed@, f),
        none_oversampled(ed.session.zones.zones@.len()),
        (sound@, gain),
    ));
    sound
}

/// An editor, and what it asks for, after an Apply that made `post`.
#[verifier::opaque]
pub open spec fn after_apply(e: EditorModel, post: BufferId) -> (EditorModel, Effects) {
    step(e, Msg::ApplyProcessing(post))
}

fn take_over(ed: &mut Editor, post: BufferId) -> (out: Effects)
    requires
        old(ed).wf(),
    ensures
        final(ed).wf(),
        (final(ed)@, out) == after_apply(old(ed)@, post),
{
    proof {
        reveal(after_apply);
    }
    ed.update(Msg::ApplyProcessing(post))
}

/// Does a shelf hold what an Apply bakes of a sound, beside what it held before?
pub open spec fn is_on_shelf<M: Fn(Function, Bits) -> Bits, L: Fn(&Vec<Bits>) -> Option<Bits>>(
    m: &M,
    meter: &L,
    ed: &Editor,
    f: FileInfo,
    samples: Seq<Bits>,
    before: ShelfModel,
    after: ShelfModel,
) -> bool {
    exists|sound: Seq<Bits>| #[trigger]
        is_baked(m, meter, ed, f, samples, sound) && after == before.baked(sound, f.channels)
}

/// Bakes the sound that is edited, where there is one, and puts it on the shelf.
fn bake_edited<M: Fn(Function, Bits) -> Bits, L: Fn(&Vec<Bits>) -> Option<Bits>>(
    m: &M,
    meter: &L,
    ed: &Editor,
    shelf: &mut Shelf,
) -> (post: Option<BufferId>)
    requires
        is_total(m),
        forall|v: Vec<Bits>| #[trigger] call_requires(*meter, (&v,)),
        ed.wf(),
        old(shelf).wf(),
        old(shelf).next < u64::MAX,
    ensures
        final(shelf).wf(),
        match edited(ed@, old(shelf)@) {
            Some((f, s)) => {
                &&& post == Some(old(shelf).next)
                &&& is_on_shelf(m, meter, ed, f, s.samples, old(shelf)@, final(shelf)@)
            },
            None => post is None && *final(shelf) == *old(shelf),
        },
{
    let (f, id): (FileInfo, BufferId) = match (ed.file, ed.session.input) {
        (Some(f), Some(id)) => (f, id),
        _ => {
            return None;
        },
    };
    let sound: Vec<Bits> = match shelf.get(id) {
        None => {
            return None;
        },
        Some(s) => bake_sound(m, meter, ed, f, &s.samples),
    };
    Some(shelf.bake(sound, f.channels))
}

/// Bakes the sound that is edited, as it is rendered and normalised, into a new one,
/// which takes its place. Without a sound nothing happens.
pub fn apply_processing<M: Fn(Function, Bits) -> Bits, L: Fn(&Vec<Bits>) -> Option<Bits>>(
    m: &M,
    meter: &L,
    ed: &mut Editor,
    shelf: &mut Shelf,
) -> (out: Effects)
    requires
        is_total(m),
        forall|v: Vec<Bits>| #[trigger] call_requires(*meter, (&v,)),
        old(ed).wf(),
        old(shelf).wf(),
        old(shelf).next < u64::MAX,
    ensures
        final(ed).wf(),
        final(shelf).wf(),
        match edited(old(ed)@, old(shelf)@) {
            Some((f, s)) => {
                &&& (final(ed)@, out) == after_apply(old(ed)@, old(shelf).next)
                &&& is_on_shelf(m, meter, &*old(ed), f, s.samples, old(shelf)@, final(shelf)@)
            },
            None => *final(ed) == *old(ed) && *final(shelf) == *old(shelf) && out == quiet(),
        },
{
    match bake_edited(m, meter, ed, shelf) {
        Some(post) => take_over(ed, post),
        None => quiet_effects(),
    }
}

// ---- Laws -------------------------------------------------------------------

/// A sound that is kept stays what it is, with its mix, whatever is baked after it.
pub proof fn law_sounds_stay(k: ShelfModel, samples: Seq<Bits>, channels: u16, id: BufferId)
    requires
        k.wf(),
        k.next < u64::MAX,
        k.sound(id) is Some,
    ensures
        k.baked(samples, channels).wf(),
        k.baked(samples, channels).sound(id) == k.sound(id),
{
    lemma_found_below(k.sounds, id, k.next);
    let b = k.baked(samples, channels);
    assert(b.sounds.drop_last() =~= k.sounds);
    assert forall|i: int| 0 <= i < b.sounds.len() implies (#[trigger] b.sounds[i]).id < b.next by {
        if i < k.sounds.len() {
            assert(b.sounds[i] == k.sounds[i]);
        }
    }
}

proof fn lemma_found_below(s: Seq<SoundModel>, id: BufferId, next: BufferId)
    requires
        forall|i: int| 0 <= i < s.len() ==> (#[trigger] s[i]).id < next,
        found(s, id) is Some,
    ensures
        id < next,
    decreases s.len(),
{
    if s.last().id != id {
        let d = s.drop_last();
        assert forall|i: int| 0 <= i < d.len() implies (#[trigger] d[i]).id < next by {
            assert(d[i] == s[i]);
        }
        lemma_found_below(d, id, next);
    } else {
        assert(s[s.len() - 1].id < next);
    }
}

/// What an Apply leaves behind. The baked sound is the input, mixed anew; the zones
/// are plain, and normalisation is off; the history ends with the Apply, which knows
/// both sounds; and of Applies there are never more than five.
pub proof fn law_apply_bakes(e: EditorModel, k: ShelfModel, sound: Seq<Bits>, channels: u16)
    requires
        e.wf(),
        e.file is Some,
        k.wf(),
        k.next < u64::MAX,
    ensures
        ({
            let after = after_apply(e, k.next).0;
            let shelf = k.baked(sound, channels);
            let s = after.session;
            &&& s.input == Some(k.next)
            &&& shelf.sound(k.next) == Some(
                SoundModel {
                    id: k.next,
                    samples: sound,
                    raw_mono: quick_mix(sound, at_least_one(channels)),
                },
            )
            &&& s.zones == MapModel::single()
            &&& !s.normalize.enabled
            &&& s.selected_zone == Some(0usize)
            &&& s.pos == s.history.len() - 1
            &&& s.history[s.pos] matches EntryModel::Apply { prev_input, post_input, .. } && Some(prev_input)
                == e.session.input && post_input == k.next
            &&& applies(s.history) <= APPLY_CAP
        }),
{
    reveal(after_apply);
    let s = e.session;
    lemma_apply_wf(s, k.next);
    let p = s.history.take(s.pos + 1);
    let h = p.push(s.apply_entry(k.next));
    lemma_applies_push(p, s.apply_entry(k.next));
    lemma_first_apply(h);
}

/// Undoing an Apply brings back the sound that it found and the mix that belongs to
/// it: behind the first Apply, the file as it was opened and its own mix.
pub proof fn law_undo_apply_restores_sound(e: EditorModel, k: ShelfModel, sound: Seq<Bits>, channels: u16)
    requires
        e.wf(),
        k.wf(),
        k.next < u64::MAX,
        edited(e, k) is Some,
        e.session.applied(k.next).pos > 0,
    ensures
        ({
            let undone = e.session.applied(k.next).undone();
            let shelf = k.baked(sound, channels);
            &&& undone.input == e.session.input
            &&& shelf.sound(undone.input->0) == k.sound(e.session.input->0)
            &&& shelf.sound(undone.input->0) is Some
        }),
{
    law_undo_apply_restores_state(e.session, k.next);
    law_sounds_stay(k, sound, channels, e.session.input->0);
}

/// The sound of a file that was opened comes with the mean of its channels.
pub proof fn law_opened_sound(k: ShelfModel, samples: Seq<Bits>, channels: u16)
    requires
        k.next < u64::MAX,
    ensures
        k.opened(samples, channels).wf(),
        k.opened(samples, channels).sound(k.next) == Some(
            SoundModel {
                id: k.next,
                samples,
                raw_mono: mono_mix(samples, at_least_one(channels)),
            },
        ),
{
}

} // verus!
