//! Rendering: plans, the clipping curves, fades, oversampling and envelopes.

use peakmuncher::audio_io::{zone_input_peak, AudioBuffer};
use peakmuncher::dsp::{amp_to_db, argument, curve_argument, db_to_amp, shape, ClipperType};
use peakmuncher::envelope::{
    build_envelope, envelope_decimated_mono, mono_from_interleaved,
    preview_frames, snap_to_zero_crossing,
};
use peakmuncher::functions::Function;
use peakmuncher::editor::{Editor, FileInfo, Msg};
use peakmuncher::jobs::{export_sound, newest, render_sound, Order};
use peakmuncher::shelf::{apply_processing, Shelf};
use peakmuncher::normalize::{Normalize, 
    apply_gain, apply_normalization, loudness_gain_db, measured_peak, peak_gain, NormalizeMode,
};
use peakmuncher::oversample::{kaiser_lowpass, Oversampler};
use peakmuncher::plan::{compute_trim_window, fade_at, measure_window, render_plan, ZonePlan};
use peakmuncher::preview::{amplify_envelope, preview_gain, render_envelope_decimated, zone_for};
use peakmuncher::render::{
    can_oversample_zones, fade_sample, render, render_with_oversampling, zone_chain,
};
use peakmuncher::zones::{ZoneMap, ZoneParams};

fn r(x: f32) -> u32 {
    x.to_bits()
}

fn all(v: &[f32]) -> Vec<u32> {
    v.iter().map(|x| x.to_bits()).collect()
}

fn bessel(x: f32) -> f32 {
    let x = x as f64;
    let (mut sum, mut term) = (1.0f64, 1.0f64);
    for k in 1..50 {
        term *= (x / (2.0 * k as f64)).powi(2);
        sum += term;
        if term < 1e-12 * sum {
            break;
        }
    }
    sum as f32
}

fn maths(f: Function, x: u32) -> u32 {
    let x = f32::from_bits(x);
    match f {
        Function::Unneeded => 0.0f32,
        Function::Tanh => x.tanh(),
        Function::SquareRoot => x.sqrt(),
        Function::Atan => x.atan(),
        Function::Sin => x.sin(),
        Function::Cos => x.cos(),
        Function::Exp => x.exp(),
        Function::TwoTo => x.exp2(),
        Function::TenTo => 10f32.powf(x),
        Function::ThreeHalves => x.powf(1.5),
        Function::SixTenths => x.powf(0.6),
        Function::FiveFourthsTo => 1.25f32.powf(x),
        Function::Log2 => x.log2(),
        Function::Log10 => x.log10(),
        Function::Bessel => bessel(x),
    }
    .to_bits()
}

fn clipped(kind: ClipperType, sample: f32, ceiling: f32) -> f32 {
    let f = maths(kind.function(), argument(r(sample), r(ceiling), kind));
    let one = maths(kind.function(), curve_argument(kind, r(1.0)));
    f32::from_bits(shape(r(sample), r(ceiling), kind, f, one))
}

/// A clipped sample by the formulas of the curves.
fn curve(kind: ClipperType, n: f32) -> f32 {
    let logistic = |x: f32| 2.0 / (1.0 + (-3.0f32 * x).exp()) - 1.0;
    let (x3, flat) = (n * n * n, n.abs() >= 1.0);
    match kind {
        ClipperType::Hard => n.clamp(-1.0, 1.0),
        ClipperType::Quintic if flat => n.signum(),
        ClipperType::Quintic => (15.0 * n - 10.0 * x3 + 3.0 * (x3 * n * n)) / 8.0,
        ClipperType::Cubic if flat => n.signum(),
        ClipperType::Cubic => 1.5 * n - 0.5 * n * n * n,
        ClipperType::Tangent => n.tanh(),
        ClipperType::Algebraic => n / (1.0 + n * n).sqrt(),
        ClipperType::Arctangent => n.atan() / std::f32::consts::FRAC_PI_2,
        ClipperType::SineFold => (n * std::f32::consts::FRAC_PI_2).sin(),
        ClipperType::TanhDrive => ((2.5 * n).tanh() / 2.5f32.tanh()).clamp(-1.0, 1.0),
        ClipperType::Sigmoid => (logistic(n) / logistic(1.0).max(1e-6)).clamp(-1.0, 1.0),
    }
}

fn amp(db: f32) -> f32 {
    10f32.powf(db / 20.0)
}

/// A noisy stereo signal.
fn signal(frames: usize) -> Vec<f32> {
    let mut state = 12345u32;
    (0..frames * 2)
        .map(|i| {
            state = state.wrapping_mul(1664525).wrapping_add(1013904223);
            let noise = (state >> 8) as f32 / (1 << 24) as f32 - 0.5;
            (i as f32 * 0.05).sin() * 0.8 + noise * 0.6
        })
        .collect()
}

/// Two zones with different settings, split at one second.
fn two_zones() -> ZoneMap {
    let mut m = ZoneMap::new();
    m.zones[0].ceiling_db = r(-6.0);
    m.zones[0].input_gain_db = r(3.0);
    m.zones[0].clipper = ClipperType::TanhDrive;
    m.add_split(r(1.0));
    m.zones[1].ceiling_db = r(-1.5);
    m.zones[1].clipper = ClipperType::Cubic;
    m.zones[1].output_gain_db = r(-2.0);
    m.zones[1].dc_offset = r(0.05);
    m.zones[1].dc_blocker_enabled = true;
    m.zones[1].dc_blocker_hz = r(30.0);
    m.zones[1].fade_in_secs = r(0.2);
    m.zones[1].fade_out_secs = r(0.3);
    m
}

/// The zones of a file of two channels, sample by sample.
fn by_hand(s: &[f32], rate: u32, zones: &ZoneMap, trim: Option<(usize, usize)>) -> Vec<u32> {
    let frames = s.len() / 2;
    let duration = frames as f32 / rate as f32;
    let (ts, te) = trim.unwrap_or((0, frames));
    let mut out = vec![0u32; s.len()];
    for (from, to, z) in zones.iter_zones(r(duration)) {
        let f = |b: u32| f32::from_bits(b);
        let start = ((f(from) * rate as f32) as usize).min(frames);
        let end = ((f(to) * rate as f32) as usize).min(frames);
        let whole = end - start;
        let fi = ((f(z.fade_in_secs).max(0.0) * rate as f32) as usize).min(whole);
        let fo = ((f(z.fade_out_secs).max(0.0) * rate as f32) as usize).min(whole);
        let anchor = start.max(ts).min(end) - start;
        let last = end.min(te).max(start) - start;
        let ceiling = amp(f(z.ceiling_db).min(0.0));
        let pole = (-2.0 * std::f32::consts::PI * f(z.dc_blocker_hz).clamp(1.0, 200.0) / rate as f32).exp();
        let (mut x, mut y) = ([0.0f32; 2], [0.0f32; 2]);
        for i in start * 2..end * 2 {
            let (c, frame) = (i % 2, i / 2 - start);
            let mut v = s[i] + f(z.dc_offset);
            if z.dc_blocker_enabled {
                let w = v - x[c] + pole * y[c];
                x[c] = v;
                y[c] = w;
                v = w;
            }
            v *= amp(f(z.input_gain_db));
            let mut o = curve(z.clipper, v / ceiling) * ceiling * amp(f(z.output_gain_db));
            if fi > 0 || fo > 0 {
                let mut g = 1.0f32;
                if fi > 0 && frame >= anchor && frame - anchor < fi {
                    g *= (frame - anchor) as f32 / fi as f32;
                }
                if fo > 0 && frame >= last.saturating_sub(fo) && frame < last {
                    g *= ((last - frame) as f32 / fo as f32).min(1.0);
                }
                o *= g;
            }
            out[i] = r(o);
        }
    }
    out
}

#[test]
fn rendering_by_hand() {
    let s = signal(200);
    let m = two_zones();
    assert_eq!(render(&maths, &all(&s), 2, 100, &m, None), by_hand(&s, 100, &m, None));
    let trim = Some((120, 190));
    assert_eq!(render(&maths, &all(&s), 2, 100, &m, trim), by_hand(&s, 100, &m, trim));
}

#[test]
fn every_clipper_renders() {
    let s = signal(60);
    for kind in ClipperType::all() {
        let mut m = ZoneMap::new();
        m.zones[0].clipper = kind;
        m.zones[0].ceiling_db = r(-9.0);
        let out = render(&maths, &all(&s), 2, 60, &m, None);
        assert_eq!(out, by_hand(&s, 60, &m, None), "{}", kind.label());
        let peak = out.iter().fold(0.0f32, |p, b| p.max(f32::from_bits(*b).abs()));
        assert!(peak <= amp(-9.0) + 1e-6);
    }
}

#[test]
fn rendering_keeps_the_length() {
    let m = ZoneMap::new();
    // a sample that belongs to no whole frame stays silent
    let out = render(&maths, &all(&[0.5, 0.25, 0.75]), 2, 10, &m, None);
    assert_eq!(out.len(), 3);
    assert_eq!(out[2], 0);
    assert!(render(&maths, &Vec::new(), 2, 10, &m, None).is_empty());
    assert_eq!(render(&maths, &all(&[0.5]), 0, 10, &m, None), all(&[0.5]));
}

#[test]
fn splits_behind_the_end_leave_empty_zones() {
    let s = signal(100);
    let mut m = ZoneMap::new();
    m.add_split(r(5.0));
    assert_eq!(render(&maths, &all(&s), 2, 100, &m, None), by_hand(&s, 100, &m, None));
}

#[test]
fn oversampling_of_one_is_plain_rendering() {
    let s = signal(150);
    let m = two_zones();
    assert!(can_oversample_zones(&m, s.len()));
    assert_eq!(
        render_with_oversampling(&maths, &all(&s), 2, 100, &m, None),
        render(&maths, &all(&s), 2, 100, &m, None)
    );
}

#[test]
fn oversampled_zones_by_hand() {
    let s = signal(40);
    let mut m = ZoneMap::new();
    m.zones[0].ceiling_db = r(-6.0);
    m.zones[0].oversampling = 4;
    m.zones[0].fade_in_secs = r(0.1);
    let out = render_with_oversampling(&maths, &all(&s), 2, 40, &m, None);
    let os = Oversampler::new(&maths, 4);
    let ceiling = amp(-6.0);
    for c in 0..2 {
        let mono: Vec<u32> = (0..40).map(|n| r(s[n * 2 + c] + 0.0)).collect();
        let block = os.process_block(&mono, |b: u32| {
            r((f32::from_bits(b) * 1.0 / ceiling).clamp(-1.0, 1.0) * ceiling * 1.0)
        });
        for n in 0..40 {
            let g = if n < 4 { n as f32 / 4.0 } else { 1.0 };
            assert_eq!(out[n * 2 + c], r(f32::from_bits(block[n]) * g));
        }
    }
    m.zones[0].oversampling = 3;
    assert!(!can_oversample_zones(&m, s.len()));
}

#[test]
fn low_pass_kernels() {
    let kernel = kaiser_lowpass(&maths, 128, r(0.225), r(8.0));
    assert_eq!(kernel.len(), 128);
    let sum: f32 = kernel.iter().map(|b| f32::from_bits(*b)).sum();
    assert!((sum - 1.0).abs() < 1e-5);
    for k in 0..64 {
        let (a, b) = (f32::from_bits(kernel[k]), f32::from_bits(kernel[127 - k]));
        assert!((a - b).abs() < 1e-6);
    }
}

#[test]
fn levels() {
    for db in [-30.0f32, -6.0, 0.0, 12.0] {
        assert_eq!(db_to_amp(&maths, r(db)), r(amp(db)));
    }
    assert_eq!(amp_to_db(&maths, r(0.5)), r(20.0 * 0.5f32.log10()));
    assert_eq!(amp_to_db(&maths, r(1e-6)), r(-120.0));
    assert_eq!(amp_to_db(&maths, r(0.0)), r(-120.0));
}

#[test]
fn chains_of_zones() {
    let mut z = ZoneParams::default();
    z.ceiling_db = r(6.0);
    z.dc_blocker_hz = r(1000.0);
    let c = zone_chain(&maths, &z, 44100);
    assert_eq!(f32::from_bits(c.ceiling), 1.0);
    assert_eq!(
        f32::from_bits(c.pole),
        (-2.0 * std::f32::consts::PI * 200.0 / 44100.0f32).exp()
    );
    assert_eq!(f32::from_bits(c.in_gain), 1.0);
}

#[test]
fn previews_by_hand() {
    let s = signal(200);
    let m = two_zones();
    let mut plain = m.duplicate();
    plain.zones[1].dc_blocker_enabled = false;
    // the preview of a mono file shows what rendering gives, frame by frame
    let mono: Vec<f32> = (0..200).map(|n| (s[2 * n] + s[2 * n + 1]) / 2.0).collect();
    let doubled: Vec<f32> = mono.iter().flat_map(|v| [*v, *v]).collect();
    let full = by_hand(&doubled, 100, &plain, None);
    let (env, gain) = render_envelope_decimated(
        &maths,
        &all(&s),
        2,
        100,
        &m,
        false,
        NormalizeMode::Peak,
        r(-1.0),
        None,
        20,
        3,
    );
    assert_eq!(gain, r(1.0));
    for (i, p) in env.iter().enumerate() {
        let (mut lo, mut hi) = (f32::INFINITY, f32::NEG_INFINITY);
        for n in (i * 10..i * 10 + 10).step_by(3) {
            let v = f32::from_bits(full[2 * n]);
            lo = lo.min(v);
            hi = hi.max(v);
        }
        assert_eq!(*p, (r(lo), r(hi)));
    }
}

#[test]
fn previews_normalise_peaks_only() {
    let s = all(&[0.1, 0.2, -0.4, 0.3]);
    let m = ZoneMap::new();
    let show = |mode: NormalizeMode, on: bool| {
        render_envelope_decimated(&maths, &s, 1, 4, &m, on, mode, r(-6.0), None, 2, 1)
    };
    let (env, gain) = show(NormalizeMode::Peak, true);
    assert_eq!(gain, r(amp(-6.0) / 0.4));
    assert_eq!(env[1].0, r(-0.4 * (amp(-6.0) / 0.4)));
    assert_eq!(show(NormalizeMode::Lufs, true).1, r(1.0));
    assert_eq!(show(NormalizeMode::Peak, false).1, r(1.0));
    // more points than frames: those behind the end are silent
    let wide = render_envelope_decimated(
        &maths, &s, 1, 4, &m, false, NormalizeMode::Peak, 0, None, 6, 1,
    );
    assert_eq!(wide.0[5], (0, 0));
    assert!(render_envelope_decimated(
        &maths, &Vec::new(), 1, 4, &m, false, NormalizeMode::Peak, 0, None, 6, 1
    )
    .0
    .is_empty());
}

#[test]
fn hard_clipping_cuts_at_the_ceiling() {
    assert_eq!(clipped(ClipperType::Hard, 0.3, 0.5), 0.3);
    assert_eq!(clipped(ClipperType::Hard, 0.9, 0.5), 0.5);
    assert_eq!(clipped(ClipperType::Hard, -0.9, 0.5), -0.5);
    assert_eq!(clipped(ClipperType::Hard, 0.9, 0.0), 0.0);
}

#[test]
fn every_curve_stays_below_the_ceiling() {
    for kind in ClipperType::all() {
        for i in -40..=40 {
            let s = i as f32 * 0.1;
            let v = clipped(kind, s, 0.5);
            assert!(v.abs() <= 0.5 + 1e-6, "{} at {s}: {v}", kind.label());
        }
        assert_eq!(clipped(kind, 0.0, 0.5), 0.0);
    }
}

#[test]
fn curves_by_their_formulas() {
    for i in -30..=30 {
        let n = i as f32 * 0.07;
        for kind in ClipperType::all() {
            assert_eq!(clipped(kind, n, 1.0), curve(kind, n), "{} at {n}", kind.label());
        }
    }
}

#[test]
fn plans_tile_the_file() {
    let mut m = ZoneMap::new();
    m.add_split(r(1.0));
    m.add_split(r(2.5));
    m.zones[1].fade_in_secs = r(10.0);
    m.zones[1].fade_out_secs = r(0.25);
    let plan = render_plan(&m, 100, 400, None);
    let ends: Vec<(usize, usize)> = plan.iter().map(|p| (p.start, p.end)).collect();
    assert_eq!(ends, vec![(0, 100), (100, 250), (250, 400)]);
    // a fade takes at most its zone
    assert_eq!(plan[1].fade_in_frames, 150);
    assert_eq!(plan[1].fade_out_frames, 25);
    let g = fade_at(&plan[1], 0);
    assert_eq!(g.rise, Some((0, 150)));
    assert_eq!(fade_at(&plan[1], 80).rise, Some((80, 150)));
    assert!(fade_at(&plan[1], 80).fall.is_none());
    assert_eq!(zone_for(&plan, 99), Some(0));
    assert_eq!(zone_for(&plan, 100), Some(1));
    assert_eq!(zone_for(&plan, 400), None);
}

#[test]
fn fades_and_plain_zones_of_short_sounds() {
    let plain = render(&maths, &vec![r(0.5)], 1, 41, &ZoneMap::new(), None);
    assert_eq!(plain, vec![r(0.5)]);
    let mut m = ZoneMap::new();
    m.zones[0].fade_in_secs = r(1.0);
    let ramp: Vec<u32> = (0..8).map(|i| r(i as f32 / 8.0)).collect();
    assert_eq!(render(&maths, &vec![r(1.0); 8], 1, 8, &m, None), ramp);
}

#[test]
fn clippers_are_odd_and_keep_the_ceiling() {
    for kind in ClipperType::all() {
        for i in -40..=40 {
            let x = i as f32 / 10.0;
            let y = clipped(kind, x, 1.0);
            assert!(y.abs() <= 1.0 + 1.0 / 262_144.0, "{kind:?} {x}");
            assert!((y + clipped(kind, -x, 1.0)).abs() < 1e-5, "{kind:?} {x}");
        }
    }
}

#[test]
fn zones_leave_each_other_alone() {
    let s = signal(200);
    let mut m = two_zones();
    let before = render(&maths, &all(&s), 2, 100, &m, None);
    m.zones[0].input_gain_db = r(6.0);
    let after = render(&maths, &all(&s), 2, 100, &m, None);
    assert_eq!(before[200..], after[200..]);
    assert_ne!(before[..200], after[..200]);
}

#[test]
fn jobs_come_to_envelopes_or_sounds() {
    let s = all(&signal(2000));
    let raw = vec![r(0.25); 2000];
    let normalize = Normalize { enabled: true, mode: NormalizeMode::Lufs, target_db: r(-14.0) };
    let mut order = Order {
        gen: 7,
        channels: 2,
        sample_rate: 100,
        zones: ZoneMap::new(),
        normalize,
        trim_window: None,
        preview: true,
    };
    let meter = |_: &Vec<u32>| Some(r(-20.0));
    let shown = order.run(&maths, &meter, &s, &raw);
    assert!(shown.preview && shown.gen == 7);
    assert!(shown.processed.is_empty() && shown.mono.is_empty() && shown.mono_in.is_empty());
    assert_eq!((shown.envelope.len(), shown.envelope_in.len()), (2000, 2000));
    for (lo, hi) in &shown.envelope {
        let (lo, hi) = (f32::from_bits(*lo), f32::from_bits(*hi));
        assert!(-1.0 <= lo && lo <= hi && hi <= 1.0);
    }
    order.preview = false;
    let full = order.run(&maths, &meter, &s, &raw);
    assert_eq!((full.processed.len(), full.mono.len(), full.mono_in.len()), (4000, 2000, 2000));
    assert!(!full.preview);
    // rendered, then normalised, and the input under the same gain
    let mut sound = render(&maths, &s, 2, 100, &order.zones, None);
    let mode = NormalizeMode::Lufs;
    let gain = apply_normalization(&maths, &mut sound, 2, true, mode, r(-14.0), Some(r(-20.0)), None);
    assert_eq!(full.processed, sound);
    assert_eq!(f32::from_bits(full.mono_in[0]), 0.25 * f32::from_bits(gain));
    assert_eq!(newest(vec![1, 2, 3]), Some(3));
    assert_eq!(newest(Vec::<u8>::new()), None);
}

#[test]
fn sounds_are_rendered_normalised_and_cut() {
    let s = all(&signal(300));
    let mut zones = two_zones();
    let quiet = |_: &Vec<u32>| None;
    let peak = Normalize { enabled: true, mode: NormalizeMode::Peak, target_db: r(-3.0) };
    let trim = Some((50, 250));
    let (sound, gain) = render_sound(&maths, &quiet, &s, 2, 100, &zones, peak, trim, false);
    let mut by_steps = render(&maths, &s, 2, 100, &zones, trim);
    let mode = NormalizeMode::Peak;
    let want = apply_normalization(&maths, &mut by_steps, 2, true, mode, r(-3.0), None, trim);
    assert_eq!((&sound, gain), (&by_steps, want));
    // what is heard is exported, cut to the trim window
    let input = AudioBuffer { samples: s.clone(), sample_rate: 100, channels: 2, source_bit_depth: 24 };
    let out = export_sound(&maths, &quiet, &input, Some(sound.clone()), &zones, peak, trim).unwrap();
    assert_eq!(out.samples, sound[100..500].to_vec());
    assert_eq!((out.sample_rate, out.channels, out.source_bit_depth), (100, 2, 24));
    assert!(export_sound(&maths, &quiet, &input, None, &zones, peak, trim).is_none());
    // with oversampling it is rendered anew
    zones.zones[0].oversampling = 2;
    let (high, _) = render_sound(&maths, &quiet, &s, 2, 100, &zones, peak, trim, true);
    let out = export_sound(&maths, &quiet, &input, Some(sound.clone()), &zones, peak, trim).unwrap();
    assert_eq!(out.samples, high[100..500].to_vec());
    assert_ne!(high, sound);
}

#[test]
fn applies_bake_and_undo_gives_back_the_mix() {
    let s = all(&signal(300));
    let buf = AudioBuffer { samples: s.clone(), sample_rate: 100, channels: 2, source_bit_depth: 24 };
    let quiet = |_: &Vec<u32>| None;
    let mut shelf = Shelf::new();
    let mut ed = Editor::new();
    assert!(matches!(shelf.get(1), None));
    apply_processing(&maths, &quiet, &mut ed, &mut shelf);
    assert!(shelf.sounds.is_empty());
    let id = shelf.open(&buf);
    let file = FileInfo { frames: 300, channels: 2, sample_rate: 100, duration: buf.duration_secs() };
    ed.update(Msg::Opened { input: id, file });
    ed.session.zones.zones[0].input_gain_db = r(3.0);
    let baked = render(&maths, &s, 2, 100, &ed.session.zones, None);
    apply_processing(&maths, &quiet, &mut ed, &mut shelf);
    let post = ed.session.input.unwrap();
    assert_ne!(post, id);
    let sound = shelf.get(post).unwrap();
    assert_eq!(sound.samples, baked);
    assert_eq!(sound.raw_mono, mono_from_interleaved(&baked, 2));
    assert_eq!(ed.session.zones.zones[0], ZoneParams::default());
    ed.update(Msg::Undo);
    assert_eq!(ed.session.input, Some(id));
    let back = shelf.get(id).unwrap();
    assert_eq!((&back.samples, &back.raw_mono), (&s, &buf.to_mono()));
}

#[test]
fn constants_pass_through_oversampling() {
    for factor in [2usize, 4, 8] {
        let o = Oversampler::new(&maths, factor);
        for phase in &o.phases {
            let taps: Vec<f64> = phase.iter().map(|t| f32::from_bits(*t) as f64).collect();
            assert!((taps.iter().sum::<f64>() - 1.0).abs() < 1.0 / 1024.0);
            assert!(taps.iter().map(|t| t.abs()).sum::<f64>() < 4.0);
        }
        let out = o.process_block(&vec![r(0.75); 200], |x| x);
        for y in &out[127..] {
            assert!((f32::from_bits(*y) - 0.75).abs() < 1.0 / 128.0);
        }
    }
}

#[test]
fn loudness_leaves_a_decibel() {
    let s = all(&[0.9, -0.5, 0.25, 0.1]);
    let mut out = s.clone();
    let gain = apply_normalization(&maths, &mut out, 1, true, NormalizeMode::Lufs, r(-9.0), Some(r(-30.0)), None);
    let top = out.iter().map(|x| f32::from_bits(*x).abs()).fold(0.0, f32::max);
    assert!(top <= 0.8915 && top > 0.89, "{top}");
    assert!(f32::from_bits(gain) < 1.0);
}

#[test]
fn trim_windows() {
    assert_eq!(compute_trim_window(100, 1000, r(10.0), None, None), None);
    assert_eq!(
        compute_trim_window(100, 1000, r(10.0), Some(r(0.00005)), Some(r(9.99995))),
        None
    );
    assert_eq!(compute_trim_window(100, 1000, r(10.0), Some(r(2.0)), None), Some((200, 1000)));
    assert_eq!(compute_trim_window(100, 1000, r(10.0), Some(r(5.0)), Some(r(5.0))), None);
    assert_eq!(measure_window(1000, 2, Some((10, 20))), (20, 40));
    assert_eq!(measure_window(1000, 2, None), (0, 1000));
}

#[test]
fn fades_are_linear() {
    let p = ZonePlan {
        start: 0,
        end: 100,
        fade_in_frames: 10,
        fade_out_frames: 20,
        fade_in_anchor: 0,
        fade_out_end: 100,
    };
    assert_eq!(f32::from_bits(fade_sample(r(1.0), &p, 0)), 0.0);
    assert_eq!(f32::from_bits(fade_sample(r(1.0), &p, 5)), 0.5);
    assert_eq!(f32::from_bits(fade_sample(r(0.8), &p, 50)), 0.8);
    assert_eq!(f32::from_bits(fade_sample(r(1.0), &p, 90)), 0.5);
}

#[test]
fn oversampling_keeps_length() {
    let kernel: Vec<f32> = (0..256).map(|i| ((i * 37) % 101) as f32 * 0.001 - 0.05).collect();
    let o = Oversampler::with_kernel(4, &all(&kernel));
    assert_eq!(o.phases.len(), 4);
    assert_eq!(o.phases[3][2], r(kernel[2 * 4 + 3] * 4.0));
    let input = [0.5f32, -0.25, 0.125];
    let high = o.upsample(&all(&input));
    assert_eq!(high.len(), 12);
    for n in 0..3 {
        for i in 0..4 {
            let mut acc = 0.0f32;
            for k in 0..=n {
                acc += kernel[k * 4 + i] * 4.0 * input[n - k];
            }
            assert_eq!(high[n * 4 + i], r(acc));
        }
    }
    assert_eq!(o.downsample(&high, 3).len(), 3);
    assert!(o.upsample(&Vec::new()).is_empty());
}

#[test]
fn envelopes() {
    let mono = all(&[0.1, -0.4, 0.3, 0.2, -2.0, 2.0]);
    let env = build_envelope(&mono, 3);
    assert_eq!(
        env,
        vec![(r(-0.4), r(0.1)), (r(0.2), r(0.3)), (r(-2.0), r(2.0))]
            .into_iter()
            .map(|(a, b): (u32, u32)| {
                let c = |x: u32| f32::from_bits(x).clamp(-1.0, 1.0).to_bits();
                (c(a), c(b))
            })
            .collect::<Vec<_>>()
    );
    assert!(build_envelope(&Vec::new(), 3).is_empty());
    // fewer frames than buckets: silence past the end
    let short = build_envelope(&all(&[0.5, -0.25]), 4);
    assert_eq!(short, vec![(r(0.5), r(0.5)), (r(-0.25), r(-0.25)), (0, 0), (0, 0)]);
    assert_eq!(envelope_decimated_mono(&all(&[0.5]), r(1.0), 2, 4), vec![(r(0.5), r(0.5)), (0, 0)]);
    let sparse = envelope_decimated_mono(&mono, r(0.5), 3, 2);
    assert_eq!(sparse[0], (r(0.05), r(0.05)));
    assert_eq!(preview_frames(0, 3, 6, 1), vec![0, 1]);
    let loud = amplify_envelope(&vec![(r(-0.25), r(0.75))], r(2.0));
    assert_eq!(loud, vec![(r(-0.5), r(1.5))]
        .into_iter()
        .map(|(a, b)| (a, f32::from_bits(b).clamp(-1.0, 1.0).to_bits()))
        .collect::<Vec<_>>());
    assert_eq!(f32::from_bits(preview_gain(&vec![(r(-0.5), r(0.25))], 100, None, r(1.0))), 2.0);
}

#[test]
fn mono_is_the_mean() {
    let m = mono_from_interleaved(&all(&[0.2, 0.4, -1.0, 1.0]), 2);
    assert_eq!(m, all(&[(0.2f32 + 0.4) * 0.5, 0.0]));
    assert_eq!(mono_from_interleaved(&all(&[0.2]), 1), all(&[0.2]));
}

#[test]
fn splits_snap_to_zero_crossings() {
    let mono = all(&[0.5, 0.4, 0.1, -0.2, -0.4, -0.1, 0.3, 0.5]);
    let t = snap_to_zero_crossing(&mono, 1000, r(0.004), r(15.0));
    let f = f32::from_bits(t) * 1000.0;
    assert!((f - 3.0).abs() < 1.01, "{f}");
    // without a crossing the time stays
    let flat = all(&[0.5; 50]);
    assert_eq!(snap_to_zero_crossing(&flat, 1000, r(0.02), r(5.0)), r(0.02));
}

#[test]
fn normalizing() {
    assert_eq!(f32::from_bits(peak_gain(r(0.5), r(1.0))), 2.0);
    assert_eq!(f32::from_bits(peak_gain(r(0.0), r(1.0))), 1.0);
    let db = f32::from_bits(loudness_gain_db(r(-14.0), r(-20.0), r(0.9), r(-0.9)));
    assert!(db <= 6.0);
    let mut s = all(&[0.25, -0.5]);
    assert_eq!(f32::from_bits(apply_gain(&mut s, true, r(2.0))), 2.0);
    assert_eq!(s, all(&[0.5, -1.0]));
    assert_eq!(f32::from_bits(apply_gain(&mut s, false, r(2.0))), 1.0);
    assert_eq!(s, all(&[0.5, -1.0]));
    assert_eq!(f32::from_bits(measured_peak(&s, 1, None)), 1.0);
    assert_eq!(f32::from_bits(measured_peak(&s, 1, Some((0, 1)))), 0.5);
}

#[test]
fn normalising_a_file() {
    let s = all(&[0.1, -0.2, 0.4, 0.3]);
    let mut a = s.clone();
    let g = apply_normalization(&maths, &mut a, 1, true, NormalizeMode::Peak, r(-6.0), None, None);
    let gain = amp(-6.0) / 0.4;
    assert_eq!(g, r(gain));
    assert_eq!(a, all(&[0.1 * gain, -0.2 * gain, 0.4 * gain, 0.3 * gain]));
    // only the window is measured
    let mut b = s.clone();
    let g = apply_normalization(&maths, &mut b, 1, true, NormalizeMode::Peak, r(-6.0), None, Some((0, 2)));
    assert_eq!(g, r(amp(-6.0) / 0.2));
    // a loudness target holds the peak one decibel below full scale
    let mut c = s.clone();
    let l = Some(r(-40.0));
    apply_normalization(&maths, &mut c, 1, true, NormalizeMode::Lufs, r(-9.0), l, None);
    let peak = c.iter().fold(0.0f32, |p, v| p.max(f32::from_bits(*v).abs()));
    assert!((20.0 * peak.log10() + 1.0).abs() < 1e-4);
    // what cannot be measured is left alone
    let mut d = s.clone();
    let g = apply_normalization(&maths, &mut d, 1, true, NormalizeMode::Lufs, r(-9.0), None, None);
    assert_eq!((g, &d), (r(1.0), &s));
    let g = apply_normalization(&maths, &mut d, 1, false, NormalizeMode::Peak, r(-9.0), None, None);
    assert_eq!((g, &d), (r(1.0), &s));
}

#[test]
fn zone_measurements() {
    let buf = AudioBuffer {
        samples: all(&[0.5, 0.5, 0.25, -0.25]),
        sample_rate: 4,
        channels: 1,
        source_bit_depth: 16,
    };
    let mut m = ZoneMap::new();
    m.add_split(r(0.5));
    assert_eq!(buf.zone_mean(&m, 0, r(1.0)).map(f32::from_bits), Some(0.5));
    assert_eq!(buf.zone_mean(&m, 1, r(1.0)).map(f32::from_bits), Some(0.0));
    assert_eq!(buf.zone_mean(&m, 9, r(1.0)), None);
    let peak = zone_input_peak(&buf.samples, &m, 1, r(1.0), 4, r(2.0));
    assert_eq!(peak.map(f32::from_bits), Some(0.5));
}
