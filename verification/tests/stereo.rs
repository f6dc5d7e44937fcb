//! What is computed in double precision: the timeline of the correlation, the
//! scatter of a band, the Bessel function and the positions of the player.

use peakmuncher::detect::{by_time, split_times};
use peakmuncher::gonio::{band_limited_gonio, can_scatter};
use peakmuncher::oversample::bessel_i0;
use peakmuncher::playback::{steps_from, Player, Source};
use peakmuncher::spectra::Bin;
use peakmuncher::timeline::correlation_timeline;
use peakmuncher::wide::{compute, is_below, to_unit, wide_larger, wide_truncate, Operation};

use rustfft::num_complex::Complex;
use rustfft::FftPlanner;

fn r(x: f32) -> u32 {
    x.to_bits()
}

fn all(v: &[f32]) -> Vec<u32> {
    v.iter().map(|x| x.to_bits()).collect()
}

fn doubles(o: Operation, a: u64, b: u64) -> u64 {
    let (x, y) = (f64::from_bits(a), f64::from_bits(b));
    match o {
        Operation::FromSingle => f32::from_bits(a as u32) as f64,
        Operation::FromWhole => a as f64,
        Operation::Plus => x + y,
        Operation::Minus => x - y,
        Operation::Times => x * y,
        Operation::Over => x / y,
        Operation::SquareRoot => x.sqrt(),
        Operation::Log10 => x.log10(),
    }
    .to_bits()
}

fn transform(block: Vec<u32>) -> Vec<Bin> {
    let mut buf: Vec<Complex<f32>> =
        block.iter().map(|b| Complex::new(f32::from_bits(*b), 0.0)).collect();
    FftPlanner::<f32>::new().plan_fft_forward(buf.len()).process(&mut buf);
    buf.iter().map(|c| Bin { re: r(c.re), im: r(c.im) }).collect()
}

fn inverse(bins: Vec<Bin>) -> Vec<Bin> {
    let mut buf: Vec<Complex<f32>> =
        bins.iter().map(|z| Complex::new(f32::from_bits(z.re), f32::from_bits(z.im))).collect();
    FftPlanner::<f32>::new().plan_fft_inverse(buf.len()).process(&mut buf);
    buf.iter().map(|c| Bin { re: r(c.re), im: r(c.im) }).collect()
}

/// Two channels that agree at first, then oppose each other, then fall silent.
fn stereo(frames: usize) -> Vec<f32> {
    (0..frames)
        .flat_map(|i| {
            let t = i as f32;
            let (a, b) = ((t * 0.05).sin() * 0.5, (t * 0.311).sin() * 0.1);
            if i < frames / 3 {
                [a + b + 0.1, a - b]
            } else if i < 2 * frames / 3 {
                [a, b - a * 0.7]
            } else {
                [a * 1.0e-5, 0.0]
            }
        })
        .collect()
}

#[test]
fn the_timeline_by_hand() {
    let rate = 8000u32;
    let s = stereo(9000);
    let got = correlation_timeline(&doubles, &all(&s), 2, rate);
    let win = ((100.0f32 / 1000.0) * rate as f32) as usize;
    let hop = win / 2;
    let count = (9000 - win) / hop + 1;
    let mut raw: Vec<(f32, f64)> = Vec::new();
    for p in 0..count {
        let (mut l1, mut r1, mut ll, mut rr, mut lr) = (0.0f64, 0.0f64, 0.0f64, 0.0f64, 0.0f64);
        for f in p * hop..p * hop + win {
            let (l, q) = (s[f * 2] as f64, s[f * 2 + 1] as f64);
            l1 += l;
            r1 += q;
            ll += l * l;
            rr += q * q;
            lr += l * q;
        }
        let n = win as f64;
        let cov = lr / n - (l1 / n) * (r1 / n);
        let vl = (ll / n - (l1 / n).powi(2)).max(0.0);
        let vr = (rr / n - (r1 / n).powi(2)).max(0.0);
        let denom = (vl * vr).sqrt();
        let c = if denom > 1e-18 { (cov / denom).clamp(-1.0, 1.0) as f32 } else { 0.0 };
        raw.push((c, (ll + rr) / (2.0 * n)));
    }
    let peak = raw.iter().map(|x| x.1).fold(0.0f64, f64::max).max(1e-20);
    let want: Vec<(u32, u32)> = raw
        .iter()
        .map(|(c, e)| {
            let db = 10.0 * (e / peak).max(1e-20).log10();
            (r(*c), r(((db as f32 + 60.0) / 15.0).clamp(0.0, 1.0)))
        })
        .collect();
    assert_eq!(got.points, want);
    assert_eq!(got.hop_secs, r(hop as f32 / rate as f32));
    assert!(got.points.iter().any(|p| f32::from_bits(p.0) > 0.8));
    assert!(got.points.iter().any(|p| f32::from_bits(p.0) < -0.8));
    assert_eq!(got.points.last().unwrap().1, 0);
    for (c, _) in &got.points {
        assert!((-1.0..=1.0).contains(&f32::from_bits(*c)));
    }
}

#[test]
fn mono_and_short_files_have_no_timeline() {
    let s = all(&stereo(9000));
    for t in [
        correlation_timeline(&doubles, &s, 1, 8000),
        correlation_timeline(&doubles, &s, 2, 0),
        correlation_timeline(&doubles, &Vec::new(), 2, 8000),
        correlation_timeline(&doubles, &s[..1598].to_vec(), 2, 8000),
    ] {
        assert!(t.points.is_empty());
        assert_eq!(t.hop_secs, 0);
    }
    assert_eq!(correlation_timeline(&doubles, &s[..1600].to_vec(), 2, 8000).points.len(), 1);
}

#[test]
fn the_scatter_by_hand() {
    let (n, rate, lo, hi) = (4096usize, 8000u32, 300.0f32, 900.0f32);
    let s = stereo(9000);
    let (center, most) = (3000usize, 500usize);
    let (points, corr) =
        band_limited_gonio(&transform, &inverse, &doubles, &all(&s), 2, center, rate, r(lo), r(hi), most)
            .unwrap();

    let start = center - n / 2;
    let mut sides: Vec<Vec<Complex<f32>>> = Vec::new();
    for ch in 0..2 {
        let mut b: Vec<Complex<f32>> =
            (0..n).map(|i| Complex::new(s[(start + i) * 2 + ch], 0.0)).collect();
        let mut planner = FftPlanner::<f32>::new();
        planner.plan_fft_forward(n).process(&mut b);
        let nyq = rate as f32 / 2.0;
        let b_lo = ((lo / nyq) * 2048.0).floor() as usize;
        let b_hi = ((hi / nyq) * 2048.0).ceil() as usize;
        for k in 0..n {
            let mirror = if k <= n / 2 { k } else { n - k };
            if mirror < b_lo || mirror >= b_hi {
                b[k] = Complex::new(0.0, 0.0);
            }
        }
        planner.plan_fft_inverse(n).process(&mut b);
        sides.push(b);
    }
    let scale = 1.0 / n as f32;
    let (mut ll, mut rr, mut lr, mut peak) = (0.0f64, 0.0f64, 0.0f64, 0.0f32);
    for i in 0..n {
        let (l, q) = ((sides[0][i].re * scale) as f64, (sides[1][i].re * scale) as f64);
        ll += l * l;
        rr += q * q;
        lr += l * q;
        peak = peak.max(sides[0][i].re.abs().max(sides[1][i].re.abs()) * scale);
    }
    assert_eq!(corr, r((lr / (ll * rr).sqrt()).clamp(-1.0, 1.0) as f32));
    let gain = 0.9 / peak;
    let want: Vec<(u32, u32)> = (0..n)
        .step_by(8)
        .map(|i| (r(sides[0][i].re * scale * gain), r(sides[1][i].re * scale * gain)))
        .collect();
    assert_eq!(points, want);
}

#[test]
fn scatters_need_two_channels_and_a_band_inside() {
    let s = all(&stereo(9000));
    let at = |ch: usize, rate: u32, len: usize, most: usize| {
        band_limited_gonio(&transform, &inverse, &doubles, &s[..len].to_vec(), ch, 0, rate, r(20.0), r(40.0), most)
    };
    assert!(at(1, 8000, 18000, 100).is_none());
    assert!(at(2, 0, 18000, 100).is_none());
    assert!(at(2, 8000, 8190, 100).is_none());
    assert_eq!(at(2, 8000, 8192, 0).unwrap().0.len(), 1);
    assert_eq!(at(2, 8000, 8192, 100000).unwrap().0.len(), 4096);
    assert!(can_scatter(r(3990.0), r(9000.0), 8000));
    assert!(!can_scatter(r(4000.0), r(9000.0), 8000));
    let silent = vec![0u32; 8192];
    let (points, corr) =
        band_limited_gonio(&transform, &inverse, &doubles, &silent, 2, 0, 8000, r(20.0), r(40.0), 64).unwrap();
    assert_eq!(corr, 0);
    assert!(points.iter().all(|p| f32::from_bits(p.0) == 0.0 && f32::from_bits(p.1) == 0.0));
}

#[test]
fn the_bessel_function_by_its_series() {
    assert_eq!(bessel_i0(&doubles, 0), r(1.0));
    for x in [0.1f32, 1.0, 2.5, 8.0, 10.0] {
        let (mut sum, mut term) = (1.0f64, 1.0f64);
        for k in 1..50 {
            term *= (x as f64 / (2.0 * k as f64)).powi(2);
            sum += term;
            if term < 1e-12 * sum {
                break;
            }
        }
        assert_eq!(bessel_i0(&doubles, r(x)), r(sum as f32));
    }
    assert!((f32::from_bits(bessel_i0(&doubles, r(1.0))) - 1.266_066).abs() < 1e-6);
}

#[test]
fn the_pitch_is_kept_at_any_rate() {
    let (file, device, n) = (44100u32, 48000u32, 20usize);
    let (steps, after) = steps_from(&doubles, 7, file, device, n);
    let ratio = file as f64 / device as f64;
    let mut pos = 7.0f64;
    for at in &steps {
        assert_eq!(at.index, pos.floor() as usize);
        assert_eq!(at.frac, r((pos - pos.floor()) as f32));
        pos += ratio;
    }
    assert_eq!(steps.len(), n);
    assert_eq!(after, pos as u64);
    let (same, behind) = steps_from(&doubles, 3, 48000, 48000, 4);
    assert_eq!(same.iter().map(|s| (s.index, s.frac)).collect::<Vec<_>>(), vec![(3, 0), (4, 0), (5, 0), (6, 0)]);
    assert_eq!(behind, 7);
}

#[test]
fn a_device_at_twice_the_rate_hears_between_frames() {
    let mut p = Player::new(48000);
    let sound = all(&[0.0, 1.0, 0.5, -0.5]);
    p.load(sound.clone(), sound, 1, 24000);
    p.set_source(Source::Input);
    p.play();
    assert_eq!(p.fill(&doubles, 6, 1, 48000), all(&[0.0, 0.5, 1.0, 0.75, 0.5, 0.0]));
    assert_eq!(p.state.frame, 3);
    assert_eq!(p.fill(&doubles, 4, 1, 48000), all(&[-0.5, -0.5, 0.0, 0.0]));
    assert!(!p.is_playing());
    assert_eq!(p.state.frame, 4);
    assert_eq!(p.fill(&doubles, 2, 1, 48000), vec![0, 0]);
}

#[test]
fn doubles_are_compared_and_cut() {
    let w = |x: f64| x.to_bits();
    for a in [-2.0f64, -1.0, -0.0, 0.0, 1e-300, 1.0, 3.0, f64::INFINITY, f64::NEG_INFINITY, f64::NAN] {
        for b in [-1.5f64, 0.0, 2.0, f64::INFINITY, f64::NAN] {
            assert_eq!(is_below(w(a), w(b)), a < b);
            let top = f64::from_bits(wide_larger(w(a), w(b)));
            assert!(top == a.max(b) || (top.is_nan() && a.max(b).is_nan()));
            assert_eq!(compute(&doubles, Operation::Plus, w(a), w(1.0)), w(a + 1.0));
        }
    }
    assert_eq!(to_unit(w(-7.0)), w(-1.0));
    assert_eq!(to_unit(w(7.0)), w(1.0));
    assert_eq!(to_unit(w(0.25)), w(0.25));
    for x in [0.0f64, 0.9, 1.0, 12345.75, 4503599627370496.5, 1e15, 1e19, 1e300, f64::INFINITY, -3.0, 5e-324] {
        assert_eq!(wide_truncate(w(x)), x as u64);
    }
    assert_eq!(wide_truncate(w(f64::NAN)), 0);
}

#[test]
fn splits_of_windows_come_in_order() {
    let list = by_time(&vec![200, 50, 0, 120, 299]);
    let times: Vec<f32> = split_times(&list, r(30.0)).iter().map(|t| f32::from_bits(*t)).collect();
    assert_eq!(times, vec![(50.0 + 0.5) * 0.1f32, (120.0 + 0.5) * 0.1f32, (200.0 + 0.5) * 0.1f32]);
    assert!(times.windows(2).all(|w| w[0] <= w[1]));
}
