//! Renderings as a whole: what a job of the rendering thread comes to, which of the
//! jobs that queue up is run, what an Apply bakes, and what an export writes.

use vstd::prelude::*;
use crate::audio_io::{AudioBuffer, at_least_one};
use crate::envelope::{build_envelope, envelope, envelope_decimated_mono, mono_from_interleaved, quick_mix, sparse_envelope};
use crate::functions::{Function, is_total};
use crate::normalize::{Normalize, NormalizeMode, apply_gain, apply_normalization, gain_in_force, is_gain, leaves_alone, scaled_by};
use crate::plan::{is_peak, measured};
use crate::preview::{is_preview, render_envelope_decimated};
use crate::render::{asked_oversampling, can_oversample, is_render_of, none_oversampled, render, render_with_oversampling};
use crate::scalar::fmul;
use crate::single::{Bits, ONE};
use crate::zones::ZoneMap;

verus! {

/// Points of a stored envelope.
pub const ENVELOPE_WIDTH: usize = 2000;

/// A preview looks at every so many frames.
pub const DECIM: usize = 4;

/// What a job is about, beside the sound.
pub struct Order {
    pub gen: u64,
    pub channels: u16,
    pub sample_rate: u32,
    pub zones: ZoneMap,
    pub normalize: Normalize,
    /// The window that is measured and that fades anchor to, in frames.
    pub trim_window: Option<(usize, usize)>,
    pub preview: bool,
}

/// What a job came to. A preview holds nothing but envelopes.
pub struct Done {
    pub gen: u64,
    pub preview: bool,
    pub processed: Vec<Bits>,
    pub mono: Vec<Bits>,
    pub envelope: Vec<(Bits, Bits)>,
    pub mono_in: Vec<Bits>,
    pub envelope_in: Vec<(Bits, Bits)>,
}

/// `after` is `before`, normalised with that gain. Only the window is measured.
pub open spec fn is_normalized<M: Fn(Function, Bits) -> Bits>(
    m: &M,
    before: Seq<Bits>,
    channels: u16,
    normalize: Normalize,
    trim: Option<(usize, usize)>,
    loudness: Option<Bits>,
    after: Seq<Bits>,
    applied: Bits,
) -> bool {
    if normalize.enabled && before.len() > 0 {
        let (a, b) = measured(before.len(), at_least_one(channels), trim);
        exists|peak: Bits, gain: Bits|
            #![trigger is_gain(m, normalize.mode, normalize.target_db, peak, loudness, gain)]
            {
                &&& is_peak(before, a as int, b as int, peak)
                &&& is_gain(m, normalize.mode, normalize.target_db, peak, loudness, gain)
                &&& applied == gain_in_force(true, before.len(), gain)
                &&& after == scaled_by(before, gain)
            }
    } else {
        after == before && applied == ONE
    }
}

/// A sound under a gain.
pub open spec fn under_gain(mono: Seq<Bits>, gain: Bits) -> Seq<Bits> {
    if leaves_alone(gain) {
        mono
    } else {
        mono.map_values(|s: Bits| fmul(s, gain))
    }
}

/// What a full job comes to once the sound is rendered: the sound normalised, and
/// the input under the same gain, both with their envelopes.
pub open spec fn is_finished<M: Fn(Function, Bits) -> Bits>(
    m: &M,
    o: &Order,
    rendered: Seq<Bits>,
    raw_mono: Seq<Bits>,
    loudness: Option<Bits>,
    gain: Bits,
    d: Done,
) -> bool {
    &&& d.gen == o.gen
    &&& !d.preview
    &&& is_normalized(
        m,
        rendered,
        o.channels,
        o.normalize,
        o.trim_window,
        loudness,
        d.processed@,
        gain,
    )
    &&& d.mono@ == quick_mix(d.processed@, at_least_one(o.channels))
    &&& d.envelope@ == envelope(d.mono@, ENVELOPE_WIDTH as nat)
    &&& d.mono_in@ == under_gain(raw_mono, gain)
    &&& d.envelope_in@ == envelope(d.mono_in@, ENVELOPE_WIDTH as nat)
}

/// The loudness that goes with a rendered sound: what the meter gives where it is
/// wanted, else none.
pub open spec fn is_loudness<L: Fn(&Vec<Bits>) -> Option<Bits>>(
    meter: &L,
    normalize: Normalize,
    rendered: Vec<Bits>,
    loudness: Option<Bits>,
) -> bool {
    if wants_loudness(normalize, rendered@.len()) {
        call_ensures(*meter, (&rendered,), loudness)
    } else {
        loudness is None
    }
}

/// What a full job comes to: the sound is rendered without oversampling, then
/// normalised.
pub open spec fn is_full<M: Fn(Function, Bits) -> Bits, L: Fn(&Vec<Bits>) -> Option<Bits>>(
    m: &M,
    meter: &L,
    o: &Order,
    samples: Seq<Bits>,
    raw_mono: Seq<Bits>,
    d: Done,
) -> bool {
    exists|rendered: Vec<Bits>, loudness: Option<Bits>, gain: Bits|
        {
            &&& is_render_of(
                m,
                samples,
                o.channels,
                o.sample_rate,
                &o.zones,
                o.trim_window,
                none_oversampled(o.zones.zones@.len()),
                rendered@,
            )
            &&& #[trigger] is_loudness(meter, o.normalize, rendered, loudness)
            &&& #[trigger] is_finished(m, o, rendered@, raw_mono, loudness, gain, d)
        }
}

/// What a preview comes to: the envelopes of output and input, from every fourth
/// frame, and nothing else.
pub open spec fn is_previewed<M: Fn(Function, Bits) -> Bits>(
    m: &M,
    o: &Order,
    samples: Seq<Bits>,
    raw_mono: Seq<Bits>,
    gain: Bits,
    d: Done,
) -> bool {
    &&& d.gen == o.gen
    &&& d.preview
    &&& d.processed@.len() == 0
    &&& d.mono@.len() == 0
    &&& d.mono_in@.len() == 0
    &&& is_preview(
        m,
        samples,
        o.channels,
        o.sample_rate,
        &o.zones,
        o.normalize.enabled,
        o.normalize.mode,
        o.normalize.target_db,
        o.trim_window,
        ENVELOPE_WIDTH as nat,
        DECIM as nat,
        (d.envelope@, gain),
    )
    &&& d.envelope_in@ == sparse_envelope(raw_mono, gain, ENVELOPE_WIDTH as nat, DECIM as nat)
}

/// What a job comes to.
pub open spec fn is_done<M: Fn(Function, Bits) -> Bits, L: Fn(&Vec<Bits>) -> Option<Bits>>(
    m: &M,
    meter: &L,
    o: &Order,
    samples: Seq<Bits>,
    raw_mono: Seq<Bits>,
    d: Done,
) -> bool {
    if o.preview {
        exists|gain: Bits| is_previewed(m, o, samples, raw_mono, gain, d)
    } else {
        is_full(m, meter, o, samples, raw_mono, d)
    }
}

/// Is the loudness of the rendered sound wanted?
pub open spec fn wants_loudness(normalize: Normalize, len: nat) -> bool {
    normalize.enabled && normalize.mode == NormalizeMode::Lufs && len > 0
}

/// Is the loudness of a rendered sound wanted?
pub fn needs_loudness(normalize: Normalize, rendered: &Vec<Bits>) -> (r: bool)
    ensures
        r == wants_loudness(normalize, rendered@.len()),
{
    normalize.enabled && normalize.mode == NormalizeMode::Lufs && rendered.len() > 0
}

/// Normalises a rendered sound, and gives the gain that it took. `loudness` is that
/// of the window, where it is wanted.
pub fn normalized<M: Fn(Function, Bits) -> Bits>(
    m: &M,
    rendered: Vec<Bits>,
    channels: u16,
    normalize: Normalize,
    trim_window: Option<(usize, usize)>,
    loudness: Option<Bits>,
) -> (r: (Vec<Bits>, Bits))
    requires
        is_total(m),
    ensures
        r.0@.len() == rendered@.len(),
        is_normalized(m, rendered@, channels, normalize, trim_window, loudness, r.0@, r.1),
{
    let mut out: Vec<Bits> = rendered;
    let gain: Bits = apply_normalization(
        m,
        &mut out,
        channels,
        normalize.enabled,
        normalize.mode,
        normalize.target_db,
        loudness,
        trim_window,
    );
    (out, gain)
}

/// `r` is a sound rendered with those factors of oversampling, then normalised, and
/// the gain that it took.
pub open spec fn is_processed<M: Fn(Function, Bits) -> Bits, L: Fn(&Vec<Bits>) -> Option<Bits>>(
    m: &M,
    meter: &L,
    samples: Seq<Bits>,
    channels: u16,
    rate: u32,
    zones: &ZoneMap,
    normalize: Normalize,
    trim: Option<(usize, usize)>,
    factors: Seq<u8>,
    r: (Seq<Bits>, Bits),
) -> bool {
    exists|rendered: Vec<Bits>, loudness: Option<Bits>|
        {
            &&& is_render_of(m, samples, channels, rate, zones, trim, factors, rendered@)
            &&& #[trigger] is_loudness(meter, normalize, rendered, loudness)
            &&& is_normalized(m, rendered@, channels, normalize, trim, loudness, r.0, r.1)
        }
}

/// Renders a sound, with the oversampling that its zones ask for or without any,
/// and normalises it. Gives the gain that it took, too. `meter` measures the
/// loudness of the rendered sound, where it is wanted.
pub fn render_sound<M: Fn(Function, Bits) -> Bits, L: Fn(&Vec<Bits>) -> Option<Bits>>(
    m: &M,
    meter: &L,
    samples: &Vec<Bits>,
    channels: u16,
    sample_rate: u32,
    zones: &ZoneMap,
    normalize: Normalize,
    trim_window: Option<(usize, usize)>,
    oversample: bool,
) -> (r: (Vec<Bits>, Bits))
    requires
        is_total(m),
        forall|v: Vec<Bits>| #[trigger] call_requires(*meter, (&v,)),
        zones.wf(),
        oversample ==> can_oversample(asked_oversampling(zones.zones@), samples@.len()),
    ensures
        is_processed(
            m,
            meter,
            samples@,
            channels,
            sample_rate,
            zones,
            normalize,
            trim_window,
            if oversample {
                asked_oversampling(zones.zones@)
            } else {
                none_oversampled(zones.zones@.len())
            },
            (r.0@, r.1),
        ),
{
    let rendered: Vec<Bits> = if oversample {
        render_with_oversampling(m, samples, channels, sample_rate, zones, trim_window)
    } else {
        render(m, samples, channels, sample_rate, zones, trim_window)
    };
    let loudness: Option<Bits> = if needs_loudness(normalize, &rendered) {
        meter(&rendered)
    } else {
        None
    };
    assert(is_loudness(meter, normalize, rendered, loudness));
    normalized(m, rendered, channels, normalize, trim_window, loudness)
}

/// Does any zone ask for oversampling?
pub open spec fn is_oversampled(zones: &ZoneMap) -> bool {
    exists|i: int| 0 <= i < zones.zones@.len() && (#[trigger] zones.zones@[i]).oversampling > 1
}

/// What an export writes, before it is cut: the sound rendered anew where a zone
/// asks for oversampling, else the one that is heard.
pub open spec fn is_exported<M: Fn(Function, Bits) -> Bits, L: Fn(&Vec<Bits>) -> Option<Bits>>(
    m: &M,
    meter: &L,
    input: &AudioBuffer,
    live: Option<Vec<Bits>>,
    zones: &ZoneMap,
    normalize: Normalize,
    trim: Option<(usize, usize)>,
    whole: AudioBuffer,
) -> bool {
    &&& whole.sample_rate == input.sample_rate
    &&& whole.channels == input.channels
    &&& whole.source_bit_depth == input.source_bit_depth
    &&& if is_oversampled(zones) {
        exists|gain: Bits|
            is_processed(
                m,
                meter,
                input.samples@,
                input.channels,
                input.sample_rate,
                zones,
                normalize,
                trim,
                asked_oversampling(zones.zones@),
                (whole.samples@, gain),
            )
    } else {
        live matches Some(sound) && whole.samples@ == sound@
    }
}

/// The sound that an export writes: rendered anew where a zone asks for
/// oversampling, else the one that is heard, and cut to the trim window. There is
/// none where neither is at hand.
pub fn export_sound<M: Fn(Function, Bits) -> Bits, L: Fn(&Vec<Bits>) -> Option<Bits>>(
    m: &M,
    meter: &L,
    input: &AudioBuffer,
    live: Option<Vec<Bits>>,
    zones: &ZoneMap,
    normalize: Normalize,
    trim_window: Option<(usize, usize)>,
) -> (r: Option<AudioBuffer>)
    requires
        is_total(m),
        forall|v: Vec<Bits>| #[trigger] call_requires(*meter, (&v,)),
        zones.wf(),
        is_oversampled(zones) ==> can_oversample(asked_oversampling(zones.zones@), input.samples@.len()),
    ensures
        r is None <==> !is_oversampled(zones) && live is None,
        r matches Some(out) ==> {
            &&& out.sample_rate == input.sample_rate
            &&& out.channels == input.channels
            &&& out.source_bit_depth == input.source_bit_depth
            &&& exists|whole: AudioBuffer| #[trigger]
                is_exported(m, meter, input, live, zones, normalize, trim_window, whole)
                    && out.samples@ == whole.exported(trim_window)
        },
{
    let samples: Vec<Bits> = if zones.needs_oversampling() {
        let (sound, gain): (Vec<Bits>, Bits) = render_sound(
            m,
            meter,
            &input.samples,
            input.channels,
            input.sample_rate,
            zones,
            normalize,
            trim_window,
            true,
        );
        assert(is_processed(
            m,
            meter,
            input.samples@,
            input.channels,
            input.sample_rate,
            zones,
            normalize,
            trim_window,
            asked_oversampling(zones.zones@),
            (sound@, gain),
        ));
        sound
    } else {
        match live {
            Some(sound) => sound,
            None => {
                return None;
            },
        }
    };
    let whole = AudioBuffer {
        samples,
        sample_rate: input.sample_rate,
        channels: input.channels,
        source_bit_depth: input.source_bit_depth,
    };
    assert(is_exported(m, meter, input, live, zones, normalize, trim_window, whole));
    Some(whole.export_slice(trim_window))
}

impl Order {
    /// The first half of a full job: the sound, rendered.
    pub fn rendered<M: Fn(Function, Bits) -> Bits>(&self, m: &M, samples: &Vec<Bits>) -> (out: Vec<Bits>)
        requires
            is_total(m),
            self.zones.wf(),
        ensures
            is_render_of(
                m,
                samples@,
                self.channels,
                self.sample_rate,
                &self.zones,
                self.trim_window,
                none_oversampled(self.zones.zones@.len()),
                out@,
            ),
    {
        render(m, samples, self.channels, self.sample_rate, &self.zones, self.trim_window)
    }

    /// The second half of a full job. `loudness` is that of the rendered sound,
    /// where it is wanted.
    pub fn finished<M: Fn(Function, Bits) -> Bits>(
        &self,
        m: &M,
        rendered: Vec<Bits>,
        raw_mono: &Vec<Bits>,
        loudness: Option<Bits>,
    ) -> (d: Done)
        requires
            is_total(m),
        ensures
            exists|gain: Bits| is_finished(m, self, rendered@, raw_mono@, loudness, gain, d),
    {
        let (processed, gain): (Vec<Bits>, Bits) = normalized(
            m,
            rendered,
            self.channels,
            self.normalize,
            self.trim_window,
            loudness,
        );
        let mono: Vec<Bits> = mono_from_interleaved(&processed, self.channels);
        let mut mono_in: Vec<Bits> = copied(raw_mono);
        apply_gain(&mut mono_in, true, gain);
        assert(mono_in@ =~= under_gain(raw_mono@, gain));
        let envelope: Vec<(Bits, Bits)> = build_envelope(&mono, ENVELOPE_WIDTH);
        let envelope_in: Vec<(Bits, Bits)> = build_envelope(&mono_in, ENVELOPE_WIDTH);
        let d = Done {
            gen: self.gen,
            preview: false,
            processed,
            mono,
            envelope,
            mono_in,
            envelope_in,
        };
        assert(is_finished(m, self, rendered@, raw_mono@, loudness, gain, d));
        d
    }

    /// Runs a full job. `meter` measures the loudness of the rendered sound, where
    /// it is wanted.
    pub fn full<M: Fn(Function, Bits) -> Bits, L: Fn(&Vec<Bits>) -> Option<Bits>>(
        &self,
        m: &M,
        meter: &L,
        samples: &Vec<Bits>,
        raw_mono: &Vec<Bits>,
    ) -> (d: Done)
        requires
            is_total(m),
            forall|v: Vec<Bits>| #[trigger] call_requires(*meter, (&v,)),
            self.zones.wf(),
        ensures
            is_full(m, meter, self, samples@, raw_mono@, d),
    {
        let rendered: Vec<Bits> = self.rendered(m, samples);
        let loudness: Option<Bits> = if needs_loudness(self.normalize, &rendered) {
            meter(&rendered)
        } else {
            None
        };
        let ghost sound = rendered;
        let d: Done = self.finished(m, rendered, raw_mono, loudness);
        proof {
            let gain = choose|gain: Bits| is_finished(m, self, sound@, raw_mono@, loudness, gain, d);
            assert(is_loudness(meter, self.normalize, sound, loudness));
            assert(is_finished(m, self, sound@, raw_mono@, loudness, gain, d));
        }
        d
    }

    /// Runs a preview.
    pub fn previewed<M: Fn(Function, Bits) -> Bits>(
        &self,
        m: &M,
        samples: &Vec<Bits>,
        raw_mono: &Vec<Bits>,
    ) -> (d: Done)
        requires
            is_total(m),
            self.zones.wf(),
        ensures
            exists|gain: Bits| is_previewed(m, self, samples@, raw_mono@, gain, d),
    {
        let (envelope, gain): (Vec<(Bits, Bits)>, Bits) = render_envelope_decimated(
            m,
            samples,
            self.channels,
            self.sample_rate,
            &self.zones,
            self.normalize.enabled,
            self.normalize.mode,
            self.normalize.target_db,
            self.trim_window,
            ENVELOPE_WIDTH,
            DECIM,
        );
        let d = Done {
            gen: self.gen,
            preview: true,
            processed: Vec::new(),
            mono: Vec::new(),
            envelope,
            mono_in: Vec::new(),
            envelope_in: envelope_decimated_mono(raw_mono, gain, ENVELOPE_WIDTH, DECIM),
        };
        assert(is_previewed(m, self, samples@, raw_mono@, gain, d));
        d
    }
}

impl Order {
    /// Runs a job.
    pub fn run<M: Fn(Function, Bits) -> Bits, L: Fn(&Vec<Bits>) -> Option<Bits>>(
        &self,
        m: &M,
        meter: &L,
        samples: &Vec<Bits>,
        raw_mono: &Vec<Bits>,
    ) -> (d: Done)
        requires
            is_total(m),
            forall|v: Vec<Bits>| #[trigger] call_requires(*meter, (&v,)),
            self.zones.wf(),
        ensures
            is_done(m, meter, self, samples@, raw_mono@, d),
    {
        if self.preview {
            self.previewed(m, samples, raw_mono)
        } else {
            self.full(m, meter, samples, raw_mono)
        }
    }
}

pub(crate) fn copied(s: &Vec<Bits>) -> (t: Vec<Bits>)
    ensures
        t@ == s@,
{
    let mut t: Vec<Bits> = Vec::new();
    let mut i: usize = 0;
    while i < s.len()
        invariant
            i <= s@.len(),
            t@ == s@.take(i as int),
        decreases s@.len() - i,
    {
        t.push(s[i]);
        i = i + 1;
        assert(t@ =~= s@.take(i as int));
    }
    assert(t@ =~= s@);
    t
}

// ---- The queue --------------------------------------------------------------

/// The newest of the jobs that queued up: earlier ones are not worth running.
pub fn newest<T>(jobs: Vec<T>) -> (job: Option<T>)
    ensures
        job == newest_of(jobs@),
{
    let mut jobs = jobs;
    jobs.pop()
}

/// The last of the jobs, where there is one.
pub open spec fn newest_of<T>(jobs: Seq<T>) -> Option<T> {
    if jobs.len() == 0 {
        None
    } else {
        Some(jobs.last())
    }
}

/// All jobs that were queued: in each round those that had come together by then.
pub open spec fn queued<T>(rounds: Seq<Seq<T>>) -> Seq<T>
    decreases rounds.len(),
{
    if rounds.len() == 0 {
        Seq::empty()
    } else {
        queued(rounds.drop_last()) + rounds.last()
    }
}

/// The place in the queue of the job that round `i` runs.
pub open spec fn place_run<T>(rounds: Seq<Seq<T>>, i: int) -> int {
    queued(rounds.take(i + 1)).len() - 1
}

/// Of the jobs that queue up the newest always runs: however they fall into rounds,
/// what is run is a part of the queue in its order, each round runs the newest job
/// there is by then, and the last round the last job of all.
pub proof fn law_newest_job_runs<T>(rounds: Seq<Seq<T>>)
    requires
        rounds.len() > 0,
        forall|i: int| 0 <= i < rounds.len() ==> (#[trigger] rounds[i]).len() > 0,
    ensures
        forall|i: int|
            0 <= i < rounds.len() ==> {
                &&& 0 <= #[trigger] place_run(rounds, i) < queued(rounds).len()
                &&& newest_of(rounds[i]) == Some(queued(rounds)[place_run(rounds, i)])
            },
        forall|i: int, j: int|
            0 <= i < j < rounds.len() ==> #[trigger] place_run(rounds, i) < #[trigger] place_run(rounds, j),
        place_run(rounds, rounds.len() - 1) == queued(rounds).len() - 1,
        newest_of(rounds.last()) == newest_of(queued(rounds)),
    decreases rounds.len(),
{
    let n = (rounds.len() - 1) as int;
    let d = rounds.drop_last();
    assert(rounds.take(n + 1) =~= rounds);
    assert(rounds[n].len() > 0);
    if d.len() > 0 {
        assert forall|i: int| 0 <= i < d.len() implies (#[trigger] d[i]).len() > 0 by {
            assert(d[i] == rounds[i]);
        }
        law_newest_job_runs(d);
    }
    assert forall|i: int| 0 <= i < d.len() implies #[trigger] place_run(rounds, i) == place_run(d, i) by {
        assert(rounds.take(i + 1) =~= d.take(i + 1));
    }
    assert forall|i: int| 0 <= i < rounds.len() implies {
        &&& 0 <= #[trigger] place_run(rounds, i) < queued(rounds).len()
        &&& newest_of(rounds[i]) == Some(queued(rounds)[place_run(rounds, i)])
    } by {
        if i < n {
            assert(place_run(rounds, i) == place_run(d, i));
            assert(d[i] == rounds[i]);
        }
    }
    assert forall|i: int, j: int| 0 <= i < j < rounds.len() implies #[trigger] place_run(rounds, i)
        < #[trigger] place_run(rounds, j) by {
        assert(place_run(rounds, i) == place_run(d, i));
        if j < n {
            assert(place_run(rounds, j) == place_run(d, j));
        }
    }
}

/// A job with its sound: what it is about, the samples, and the input mixed to one
/// channel.
pub type JobModel = (Order, Seq<Bits>, Seq<Bits>);

/// What the rendering thread hands back: in each round the newest job is run. The
/// numbers of the results are a part of those of the jobs, in their order, and end
/// with the newest. A preview comes without sounds, and a full job with what it
/// renders and normalises.
pub proof fn law_results_follow_jobs<M: Fn(Function, Bits) -> Bits, L: Fn(&Vec<Bits>) -> Option<Bits>>(
    m: &M,
    meter: &L,
    rounds: Seq<Seq<JobModel>>,
    results: Seq<Done>,
)
    requires
        rounds.len() > 0,
        forall|i: int| 0 <= i < rounds.len() ==> (#[trigger] rounds[i]).len() > 0,
        results.len() == rounds.len(),
        forall|i: int|
            0 <= i < rounds.len() ==> {
                let job = newest_of(rounds[i])->0;
                is_done(m, meter, &job.0, job.1, job.2, #[trigger] results[i])
            },
    ensures
        results.last().gen == queued(rounds).last().0.gen,
        forall|i: int|
            0 <= i < results.len() ==> {
                let job = queued(rounds)[place_run(rounds, i)];
                &&& 0 <= #[trigger] place_run(rounds, i) < queued(rounds).len()
                &&& results[i].gen == job.0.gen
                &&& results[i].preview == job.0.preview
                &&& job.0.preview ==> results[i].processed@.len() == 0 && results[i].mono@.len() == 0
                    && results[i].mono_in@.len() == 0
                &&& !job.0.preview ==> is_full(m, meter, &job.0, job.1, job.2, results[i])
            },
        forall|i: int, j: int|
            0 <= i < j < results.len() ==> #[trigger] place_run(rounds, i) < #[trigger] place_run(rounds, j),
{
    law_newest_job_runs(rounds);
    assert forall|i: int| 0 <= i < results.len() implies {
        let job = queued(rounds)[place_run(rounds, i)];
        &&& 0 <= #[trigger] place_run(rounds, i) < queued(rounds).len()
        &&& results[i].gen == job.0.gen
        &&& results[i].preview == job.0.preview
        &&& job.0.preview ==> results[i].processed@.len() == 0 && results[i].mono@.len() == 0
            && results[i].mono_in@.len() == 0
        &&& !job.0.preview ==> is_full(m, meter, &job.0, job.1, job.2, results[i])
    } by {
        let job = newest_of(rounds[i])->0;
        assert(is_done(m, meter, &job.0, job.1, job.2, results[i]));
        assert(newest_of(rounds[i]) == Some(queued(rounds)[place_run(rounds, i)]));
    }
    assert(place_run(rounds, rounds.len() - 1) == queued(rounds).len() - 1);
}

} // verus!
