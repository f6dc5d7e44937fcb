//! Spectra, correlation, structure and detection.

use peakmuncher::correlation::{
    band_correlation, corr_color_ramp, corr_to_h, correlate, curve_at, fade_weight, fill_bar, plot_y,
    segments, strip_bar, strip_column, timeline_layout, worst_band, CorrTimeline, BAND_FADE, BAND_FLOOR,
};
use peakmuncher::detect::{
    accept, by_time, can_detect, detect_splits, moving_average, normalize_p95, pick_windows,
    robust_range, snap_to_onset, split_times, windows,
};
use peakmuncher::fft::{
    bins_of_band, chosen_size, db_code, fft_size_label, fft_sizes, fit_contrast, keeps_bin, magma,
    probe_window, slice_count, Spectrogram,
};
use peakmuncher::functions::Function;
use peakmuncher::heatmap::{column_codes, look, pixel_code, runs, Row, Shown, Slices};
use peakmuncher::spectra::{
    blackman_harris_window, compute_spectrogram, hann_n, spectrum_at, Bin,
};
use peakmuncher::structure::{
    can_look_around, flux, novelty_curve, onset_strength, pitch_class, pitch_hz, stride,
};

use rustfft::num_complex::Complex;
use rustfft::FftPlanner;

fn r(x: f32) -> u32 {
    x.to_bits()
}

fn f(b: u32) -> f32 {
    f32::from_bits(b)
}

fn all(v: &[f32]) -> Vec<u32> {
    v.iter().map(|x| x.to_bits()).collect()
}

fn maths(name: Function, x: u32) -> u32 {
    let x = f32::from_bits(x);
    match name {
        Function::Cos => x.cos(),
        Function::SquareRoot => x.sqrt(),
        Function::Exp => x.exp(),
        Function::TwoTo => x.exp2(),
        Function::ThreeHalves => x.powf(1.5),
        Function::Log2 => x.log2(),
        Function::Log10 => x.log10(),
        _ => unreachable!(),
    }
    .to_bits()
}

fn transform(block: Vec<u32>) -> Vec<Bin> {
    let mut buf: Vec<Complex<f32>> = block.iter().map(|b| Complex::new(f(*b), 0.0)).collect();
    FftPlanner::<f32>::new().plan_fft_forward(buf.len()).process(&mut buf);
    buf.iter().map(|c| Bin { re: r(c.re), im: r(c.im) }).collect()
}

/// Bins of a block by hand.
fn bins(mono: &[f32], start: usize, window: &[f32]) -> Vec<Complex<f32>> {
    let mut buf: Vec<Complex<f32>> =
        window.iter().enumerate().map(|(i, w)| Complex::new(mono[start + i] * w, 0.0)).collect();
    FftPlanner::<f32>::new().plan_fft_forward(buf.len()).process(&mut buf);
    buf
}

fn hann(n: usize) -> Vec<f32> {
    (0..n)
        .map(|i| 0.5 * (1.0 - (2.0 * std::f32::consts::PI * (i as f32 / (n - 1) as f32)).cos()))
        .collect()
}

fn tone(n: usize, step: f32) -> Vec<f32> {
    (0..n).map(|i| (i as f32 * step).sin() * 0.5).collect()
}

#[test]
fn window_sizes() {
    assert_eq!(fft_sizes(), [1024, 2048, 4096, 8192]);
    assert_eq!(chosen_size(4096), 4096);
    assert_eq!(chosen_size(3000), 2048);
    for n in fft_sizes() {
        for rate in [0u32, 8000, 44100, 48000, 96000] {
            let sr = if rate == 0 { 48000 } else { rate };
            let ms = n as f32 / sr as f32 * 1000.0;
            let hz = sr as f32 / n as f32;
            assert_eq!(fft_size_label(n, rate), format!("{n}  ({ms:.0} ms / {hz:.0} Hz)"));
        }
    }
    assert_eq!(slice_count(2047, 2048), 0);
    assert_eq!(slice_count(2048, 2048), 1);
    assert_eq!(slice_count(2048 + 256, 2048), 2);
}

#[test]
fn windows_by_their_formulas() {
    assert_eq!(hann_n(&maths, 64), all(&hann(64)));
    let w = blackman_harris_window(&maths, 32);
    for i in 0..32 {
        let t = 2.0 * std::f32::consts::PI * (i as f32 / 31.0);
        let want = 0.35875 - 0.48829 * t.cos() + 0.14128 * (2.0 * t).cos() - 0.01168 * (3.0 * t).cos();
        assert_eq!(w[i], r(want));
    }
}

#[test]
fn spectrograms_by_hand() {
    let mono = tone(3000, 0.3);
    let g = compute_spectrogram(&maths, &transform, &all(&mono), 8000, 1024);
    assert_eq!((g.freq_bins, g.hop, g.fft_size, g.sample_rate), (512, 128, 1024, 8000));
    assert_eq!(g.time_bins(), (3000 - 1024) / 128 + 1);
    let window = hann(1024);
    let scale = 2.0 / 1024.0f32;
    for s in [0, 7, g.time_bins() - 1] {
        let z = bins(&mono, s * 128, &window);
        for (k, code) in g.row(s).iter().enumerate() {
            let power = (z[k].re * z[k].re + z[k].im * z[k].im) * (scale * scale);
            let db = if power <= 1e-12 { -120.0 } else { 10.0 * power.log10() };
            assert_eq!(*code, ((db + 120.0) * (255.0 / 120.0)).clamp(0.0, 255.0) as u8);
        }
    }
    assert_eq!((g.floor_code, g.ceil_code), fit_contrast(&g.data));
    let none = compute_spectrogram(&maths, &transform, &all(&mono[..1000]), 8000, 1024);
    assert_eq!((none.time_bins(), none.fft_size, none.hop), (0, 2048, 256));
}

#[test]
fn spectra_at_a_probe() {
    let mono = tone(20000, 0.2);
    assert!(spectrum_at(&maths, &transform, &all(&mono[..16383]), 0).is_none());
    let line = spectrum_at(&maths, &transform, &all(&mono), 9000).unwrap();
    assert_eq!(line.len(), 8192);
    let top = (0..8192).max_by(|a, b| f(line[*a]).partial_cmp(&f(line[*b])).unwrap()).unwrap();
    let want = 0.2 / (2.0 * std::f32::consts::PI) * 16384.0;
    assert!((top as f32 - want).abs() <= 1.0, "{top} {want}");
    assert!((f(line[top]) - 20.0 * 0.5f32.log10()).abs() < 1.0);
    assert!(line.iter().all(|b| f(*b) >= -120.0 && f(*b) <= 0.0));
}

#[test]
fn correlation_at_a_probe() {
    let n = 9000;
    let low = tone(n, 0.05);
    let high = tone(n, 1.0);
    // in phase below, out of phase above
    let both: Vec<f32> = (0..n).flat_map(|i| [low[i] + high[i], low[i] - high[i]]).collect();
    assert!(band_correlation(&maths, &transform, &all(&both), 1, 0).is_none());
    assert!(band_correlation(&maths, &transform, &all(&both[..8000]), 2, 0).is_none());
    let bands = band_correlation(&maths, &transform, &all(&both), 2, 4500).unwrap();
    assert_eq!(bands.len(), 2048);
    assert_eq!(bands[0], (0, 0));
    let at = |step: f32| bands[(step / (2.0 * std::f32::consts::PI) * 4096.0) as usize];
    assert!(f(at(0.05).0) > 0.99 && f(at(0.05).1) == 1.0);
    assert!(f(at(1.0).0) < -0.99 && f(at(1.0).1) == 1.0);
    for (c, w) in &bands {
        assert!((-1.0..=1.0).contains(&f(*c)) && (0.0..=1.0).contains(&f(*w)));
    }
}

#[test]
fn probes_stay_inside() {
    assert_eq!(probe_window(0, 0, 4, 100, 400, 1000), 0);
    assert_eq!(probe_window(999, 3, 4, 100, 400, 1000), 600);
    assert_eq!(probe_window(500, 1, 4, 100, 400, 1000), 300);
    assert_eq!(probe_window(500, 2, 4, 100, 400, 1000), 400);
}

#[test]
fn bands_have_mirrors() {
    let band = bins_of_band(r(1000.0), r(2000.0), 48000, 2048);
    assert_eq!(band, ((1000.0 / 24000.0f32 * 2048.0).floor() as usize, (2000.0 / 24000.0f32 * 2048.0).ceil() as usize));
    for k in 1..4096 {
        assert_eq!(keeps_bin(k, 4096, band), keeps_bin(4096 - k, 4096, band));
    }
    assert!(keeps_bin(band.0, 4096, band) && !keeps_bin(band.1, 4096, band));
}

#[test]
fn contrast_follows_the_data() {
    assert_eq!(fit_contrast(&Vec::new()), (0, 255));
    assert_eq!(fit_contrast(&vec![40u8; 100]), (40, 60));
    let mut data = vec![10u8; 700];
    data.extend(vec![200u8; 300]);
    assert_eq!(fit_contrast(&data), (10, 200));
    data.reverse();
    assert_eq!(fit_contrast(&data), (10, 200));
    assert_eq!(fit_contrast(&vec![250u8; 10]), (250, 255));
}

#[test]
fn codes_and_colours() {
    for db in [-130.0f32, -120.0, -60.0, -0.1, 0.0, 5.0] {
        let want = ((db + 120.0) * (255.0 / 120.0)).clamp(0.0, 255.0) as u8;
        assert_eq!(db_code(r(db)), want);
    }
    let dark = magma(r(0.0));
    assert_eq!((f(dark.r), f(dark.g), f(dark.b)), (0.001, 0.0, 0.014));
    let bright = magma(r(7.0));
    assert_eq!(f(bright.r), 0.588 + (0.987 - 0.588) * 0.0 + (0.987 - 0.588));
    let mut g = Spectrogram::empty(48000);
    g.floor_code = 100;
    g.ceil_code = 100;
    assert_eq!(g.code_to_rgba(90), magma(r(0.0)));
    assert_eq!(g.code_to_rgba(101), magma(r(1.0)));
}

#[test]
fn heat_maps() {
    let data: Vec<u8> = (0..32).map(|i| (i * 7) as u8).collect();
    let mut g = Spectrogram::empty(8000);
    g.data = data;
    g.freq_bins = 4;
    g.hop = 100;
    assert_eq!(g.time_bins(), 8);
    let row = Row { bin_lo: 1, bin_hi: 3, frac: 0, blend: false };
    assert_eq!(f(look(g.row(0), &row)), 14.0);
    let shown = Shown { pixels: 4, scroll: r(0.15), visible: r(0.05) };
    let s = Slices::at(&g, &shown, 0).unwrap();
    let code = pixel_code(&g, &row, &s);
    assert_eq!(column_codes(&g, &vec![row, row], &s), vec![code, code]);
    let list = runs(&vec![1u8, 1, 2, 2, 2, 1]);
    let parts: Vec<(usize, usize, u8)> = list.iter().map(|x| (x.start, x.end, x.code)).collect();
    assert_eq!(parts, vec![(0, 2, 1), (2, 5, 2), (5, 6, 1)]);
}

#[test]
fn correlation_values() {
    assert_eq!(f(correlate(r(0.5), r(1.0))), 0.5);
    assert_eq!(f(correlate(r(3.0), r(1.0))), 1.0);
    assert_eq!(f(correlate(r(-3.0), r(1.0))), -1.0);
    assert_eq!(correlate(r(1.0), r(1e-21)), 0);
    assert_eq!(f(fade_weight(r(-60.0), BAND_FLOOR, BAND_FADE)), 0.5);
    assert_eq!(f(fade_weight(r(0.0), BAND_FLOOR, BAND_FADE)), 1.0);
    assert_eq!(f(fade_weight(r(-90.0), BAND_FLOOR, BAND_FADE)), 0.0);
}

#[test]
fn timelines() {
    let l = timeline_layout(2 * 48000, 2, 48000).unwrap();
    assert_eq!((l.window, l.hop, l.count), (4800, 2400, (48000 - 4800) / 2400 + 1));
    assert!(timeline_layout(48000, 1, 48000).is_none());
    assert!(timeline_layout(400, 2, 1000).is_none());
    assert_eq!(timeline_layout(512, 2, 1000).unwrap().window, 256);
    let tl = CorrTimeline { points: vec![(r(1.0), r(1.0)), (r(-1.0), r(0.5))], hop_secs: r(0.5) };
    assert_eq!(tl.at(r(0.7)), Some((r(-1.0), r(0.5))));
    assert_eq!(tl.at(r(1.0)), None);
    assert_eq!(tl.at(r(-1.0)), None);
    assert_eq!(CorrTimeline { points: Vec::new(), hop_secs: 0 }.at(r(0.0)), None);
    // the worst window of a pixel shows
    assert_eq!(strip_column(&tl, 0, 1, r(1.0)).map(|p| f(p.0)), Some(-1.0));
}

#[test]
fn correlation_curves() {
    let curve = vec![None, Some((r(0.5), r(1.0))), Some((r(-0.7), r(0.9))), None, Some((r(0.1), r(0.02)))];
    assert_eq!(worst_band(&curve).map(f), Some(-0.7));
    assert_eq!(segments(&curve), vec![(1, 3)]);
    assert!(fill_bar(&None, r(0.0), r(100.0)).is_none());
    assert_eq!(f(plot_y(r(1.0), r(10.0), r(100.0))), 10.0);
    assert_eq!(f(plot_y(r(-1.0), r(10.0), r(100.0))), 110.0);
    let bands = vec![(0, 0), (r(0.5), r(1.0)), (r(-0.5), r(1.0)), (r(0.9), r(1.0))];
    assert!(curve_at(&bands, r(6000.0), r(12000.0), 48000).is_some());
    assert_eq!(f(corr_to_h(r(-1.0), r(10.0))), 0.0);
    assert_eq!(f(corr_to_h(r(1.0), r(10.0))), 10.0);
    let bar = strip_bar((r(1.0), r(1.0)), r(5.0), r(10.0));
    assert_eq!(bar.shade, corr_color_ramp(r(1.0)));
}

#[test]
fn averages_and_spreads() {
    let v = [1.0f32, 2.0, 4.0, 8.0, 16.0];
    let got = moving_average(&all(&v), 2);
    let want: Vec<f32> = vec![1.5, 7.0 / 3.0, 14.0 / 3.0, 28.0 / 3.0, 12.0];
    assert_eq!(got, all(&want));
    let s: Vec<f32> = (0..20).rev().map(|i| i as f32).collect();
    assert_eq!(f(robust_range(&all(&s))), 16.0);
    assert_eq!(robust_range(&all(&[3.0])), 0);
    let mut c = all(&(0..100).map(|i| i as f32).collect::<Vec<_>>());
    normalize_p95(&mut c);
    assert_eq!(f(c[95]), 1.0);
    assert_eq!(f(c[0]), 0.0);
    assert_eq!(c[99], r(99.0 / 95.0));
}

#[test]
fn splits_from_a_curve() {
    let mut c = vec![r(0.1); 400];
    c[100] = r(1.0);
    c[120] = r(0.9);
    c[300] = r(0.8);
    c[20] = r(2.0);
    // the one at 120 is too close, the one at 20 too near the edge
    assert_eq!(pick_windows(&c, r(0.5), r(40.0)), vec![100, 300]);
    assert_eq!(pick_windows(&c, r(0.5), r(9.0)), vec![100]);
    assert_eq!(by_time(&vec![7, 3, 5]), vec![3, 5, 7]);
    assert_eq!(accept(&vec![50, 70, 90], 400, r(40.0)), vec![50, 90]);
    assert_eq!(split_times(&vec![100], r(40.0)), vec![r(100.5 * 0.1)]);
    assert!(split_times(&vec![399], r(40.0)).is_empty());
}

#[test]
fn splits_move_to_onsets() {
    let mut onset = vec![r(0.0); 100];
    onset[40] = r(0.9);
    assert_eq!(snap_to_onset(r(4.5), &onset, r(0.1)), r(40.0 * 0.1));
    onset[40] = r(0.19);
    assert_eq!(snap_to_onset(r(4.5), &onset, r(0.1)), r(4.5));
    assert_eq!(snap_to_onset(r(4.5), &Vec::new(), r(0.1)), r(4.5));
}

#[test]
fn short_files_are_not_split() {
    assert!(windows(0, 44100).is_none());
    assert!(windows(44100 * 5, 44100).is_none());
    let w = windows(44100 * 10, 44100).unwrap();
    assert_eq!((w.size, w.count), (4410, 100));
    assert!(can_detect(44100, 44100));
    assert!(detect_splits(&maths, &transform, &all(&tone(20000, 0.1)), 44100, r(1.0)).is_empty());
    // nine windows are too few to look at both sides of a peak
    assert!(!can_detect(600, 100));
}

/// Detection by hand, step by step.
fn detected(mono: &[f32], rate: u32, sensitivity: f32) -> Vec<u32> {
    let duration = mono.len() as f32 / rate as f32;
    let size = ((0.1f32 * rate as f32) as usize).max(64);
    let n = mono.len() / size;
    let (mut rms, mut crest) = (Vec::new(), Vec::new());
    for w in 0..n {
        let part = &mono[w * size..(w + 1) * size];
        let sq = part.iter().fold(0.0f32, |s, v| s + v * v);
        let p = part.iter().fold(0.0f32, |s, v| s.max(v.abs())).max(1e-6);
        let q = (sq / size as f32).sqrt().max(1e-6);
        rms.push(20.0 * q.log10());
        crest.push(20.0 * (p / q).log10());
    }
    let smooth = |v: &[f32]| -> Vec<f32> {
        (0..n)
            .map(|i| {
                let part = &v[i.saturating_sub(10)..(i + 11).min(n)];
                part.iter().fold(0.0f32, |s, x| s + x) / part.len() as f32
            })
            .collect()
    };
    let ranked = |v: &[f32]| {
        let mut s = v.to_vec();
        s.sort_by(|a, b| a.partial_cmp(b).unwrap());
        s
    };
    let spread = |v: &[f32]| {
        let s = ranked(v);
        (s[n * 9 / 10] - s[n / 10]).abs().max(1e-3)
    };
    let (a, b) = (smooth(&rms), smooth(&crest));
    let (sa, sb) = (spread(&a), spread(&b));
    let mut curve = vec![0.0f32; n];
    for i in 1..n {
        let (x, y) = ((a[i] - a[i - 1]) / sa, (b[i] - b[i - 1]) / sb);
        curve[i] = (x * x + y * y).sqrt();
    }
    let p95 = ranked(&curve)[n * 95 / 100].max(1e-9);
    let (harmony, hop) = novelty_curve(&maths, &transform, &all(mono), rate);
    for (i, v) in curve.iter_mut().enumerate() {
        *v = (*v / p95).clamp(0.0, 2.0);
        if hop != 0 {
            let at = (i as f32 * 0.1 / f(hop)) as usize;
            if at < harmony.len() {
                *v = v.max(f(harmony[at]));
            }
        }
    }
    let positive: Vec<f32> = curve.iter().copied().filter(|v| *v > 0.0).collect();
    if positive.is_empty() {
        return Vec::new();
    }
    let limit = ranked(&positive)[positive.len() / 2].max(1e-6) * (6.0 - sensitivity.powf(1.5) * 4.8);
    let mut peaks: Vec<usize> = (10..n - 10)
        .filter(|i| curve[*i] >= limit && curve[i - 10..i + 11].iter().all(|x| *x <= curve[*i]))
        .collect();
    peaks.sort_by(|x, y| curve[*y].partial_cmp(&curve[*x]).unwrap());
    let mut taken: Vec<usize> = Vec::new();
    for p in peaks {
        if taken.len() < ((duration / 10.0) as usize).max(1)
            && taken.iter().all(|t| t.abs_diff(p) >= 30)
            && p >= 30
            && p + 30 <= n
        {
            taken.push(p);
        }
    }
    taken.sort();
    let (onset, hop) = onset_strength(&maths, &transform, &all(mono), rate);
    taken
        .iter()
        .map(|w| (*w as f32 + 0.5) * 0.1)
        .filter(|t| *t > 0.1 && *t < duration - 0.1)
        .map(|t| snap_to_onset(r(t), &onset, hop))
        .collect()
}

#[test]
fn detection_by_hand() {
    let rate = 4000;
    let mono: Vec<f32> = (0..rate * 24)
        .map(|i| {
            let t = i as f32 / rate as f32;
            let (level, hz) = if t < 9.0 { (0.1, 220.0) } else if t < 17.0 { (0.7, 330.0) } else { (0.2, 150.0) };
            (t * hz * 2.0 * std::f32::consts::PI).sin() * level
        })
        .collect();
    assert!(can_detect(mono.len(), rate as u32));
    for s in [0.3f32, 1.0] {
        let got = detect_splits(&maths, &transform, &all(&mono), rate as u32, r(s));
        assert_eq!(got, detected(&mono, rate as u32, s));
    }
    let got = detect_splits(&maths, &transform, &all(&mono), rate as u32, r(1.0));
    assert_eq!(got.len(), 2);
    assert!((f(got[0]) - 9.0).abs() < 1.0 && (f(got[1]) - 17.0).abs() < 1.0);
    let end = mono.len() as f32 / rate as f32;
    assert!(got.iter().all(|t| f(*t) > 0.0 && f(*t) < end));
}

#[test]
fn onsets_by_hand() {
    let rate = 4000;
    let mut mono = tone(12000, 0.4);
    for v in mono[..6000].iter_mut() {
        *v *= 0.05;
    }
    let (curve, hop) = onset_strength(&maths, &transform, &all(&mono), rate);
    assert_eq!(hop, r(1024.0 / 4000.0));
    assert_eq!(curve.len(), (12000 - 4096) / 1024 + 1);
    let window = hann(4096);
    let mags: Vec<Vec<f32>> = (0..curve.len())
        .map(|s| bins(&mono, s * 1024, &window)[..2048].iter().map(|z| (z.re * z.re + z.im * z.im).sqrt()).collect())
        .collect();
    let mut flux = vec![0.0f32; curve.len()];
    for i in 1..curve.len() {
        for k in 0..2048 {
            let d = mags[i][k] - mags[i - 1][k];
            if d > 0.0 {
                flux[i] += d;
            }
        }
    }
    let mut s: Vec<f32> = flux.iter().copied().filter(|x| *x > 0.0).collect();
    s.sort_by(|a, b| a.partial_cmp(b).unwrap());
    let p = s[s.len() * 95 / 100].max(1e-9);
    let want: Vec<f32> = flux.iter().map(|v| (v / p).clamp(0.0, 2.0)).collect();
    assert_eq!(curve, all(&want));
    assert_eq!(onset_strength(&maths, &transform, &all(&mono[..8000]), rate).0.len(), 0);
    assert_eq!(flux_of_equal_slices(), 0);
}

fn flux_of_equal_slices() -> u32 {
    flux(&all(&[1.0, 2.0]), &all(&[1.0, 1.5]))
}

#[test]
fn novelty_marks_a_new_chord() {
    let rate = 4000;
    let mono: Vec<f32> = (0..60000)
        .map(|i| {
            let hz = if i < 30000 { 220.0 } else { 311.0 };
            (i as f32 / rate as f32 * hz * 2.0 * std::f32::consts::PI).sin()
        })
        .collect();
    assert!(can_look_around(mono.len(), rate));
    let (curve, hop) = novelty_curve(&maths, &transform, &all(&mono), rate);
    let top = (0..curve.len()).max_by(|a, b| f(curve[*a]).partial_cmp(&f(curve[*b])).unwrap()).unwrap();
    assert!((top as f32 * f(hop) - 7.5).abs() < 1.0);
    assert!(novelty_curve(&maths, &transform, &all(&mono[..16000]), rate).0.is_empty());
    // too short for the kernel
    assert!(!can_look_around(25000, 44100));
}

#[test]
fn pitches() {
    assert_eq!(pitch_class(r(69.0)), 9);
    assert_eq!(pitch_class(r(71.6)), 0);
    assert_eq!(pitch_class(r(-1.0)), 11);
    assert_eq!(pitch_class(r(-12.4)), 0);
    assert_eq!(pitch_class(r(f32::NAN)), 0);
    assert_eq!(pitch_hz(0, 44100), None);
    assert_eq!(pitch_hz(100, 44100), Some(r(100.0 * 44100.0 / 4096.0)));
    assert_eq!(stride(3000), 1);
    assert_eq!(stride(3001), 2);
}
