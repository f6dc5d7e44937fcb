//! Rulers, plots over frequency, and the body of the waveform.

use peakmuncher::body::{bell, draw_body, layers};
use peakmuncher::canvas::Band;
use peakmuncher::columns::{Quiet, Span};
use peakmuncher::correlation::{curve_at, rate_correlation, Concern};
use peakmuncher::display::gonio_circle;
use peakmuncher::functions::Function;
use peakmuncher::heatmap::Row;
use peakmuncher::labels::frequency_name;
use peakmuncher::line::{bin_places, difference, grid, trace};
use peakmuncher::ruler::{
    ceiling_lines, dashes, guide_level, guide_lines, level_marks, map_bars, nice_time_step, wheel_factor, Window,
};
use peakmuncher::scalar::{floor, fraction_of};
use peakmuncher::scale::{curve, rows, Scale};
use peakmuncher::viewport::Viewport;
use peakmuncher::waveform::{Rect, Waveform};
use peakmuncher::zones::ZoneMap;

fn b(x: f32) -> u32 {
    x.to_bits()
}

fn v(x: u32) -> f32 {
    f32::from_bits(x)
}

fn maths(name: Function, x: u32) -> u32 {
    let x = f32::from_bits(x);
    match name {
        Function::Exp => x.exp(),
        Function::TenTo => 10f32.powf(x),
        Function::SixTenths => x.powf(0.6),
        Function::FiveFourthsTo => 1.25f32.powf(x),
        Function::Log10 => x.log10(),
        _ => panic!("not needed here"),
    }
    .to_bits()
}

fn nice(raw: f32) -> f32 {
    if raw <= 0.0 {
        return 1.0;
    }
    let base = 10f32.powf(raw.log10().floor());
    let m = raw / base;
    let nice = if m < 1.5 { 1.0 } else if m < 3.5 { 2.0 } else if m < 7.5 { 5.0 } else { 10.0 };
    nice * base
}

#[test]
fn whole_parts() {
    for x in [0.0f32, -0.0, 0.3, -0.3, 1.0, -1.0, 2.75, -2.75, 8388607.5, -8388607.5, 1e20, -1e20, 1e-40, -1e-40] {
        assert_eq!(floor(b(x)), b(x.floor()), "{x}");
        assert_eq!(fraction_of(b(x)), b(x - x.floor()), "{x}");
    }
    assert!(v(floor(b(f32::NAN))).is_nan());
    assert_eq!(v(floor(b(f32::NEG_INFINITY))), f32::NEG_INFINITY);
}

#[test]
fn steps_of_the_time_ruler() {
    for raw in [-1.0f32, 0.0, 0.0007, 0.02, 0.4, 1.6, 3.0, 8.0, 44.0] {
        assert_eq!(nice_time_step(&maths, b(raw)), b(nice(raw)), "{raw}");
    }
    assert_eq!(v(nice_time_step(&maths, b(3.0))), 2.0);
}

#[test]
fn marks_of_the_time_ruler() {
    for (scroll, visible, width) in [(0.0f32, 10.0f32, 900.0f32), (3.3, 2.7, 1200.0), (0.0, 0.001, 100.0), (100.0, 600.0, 50.0)] {
        let w = Window { scroll: b(scroll), visible: b(visible), left: b(42.0), width: b(width) };
        let step = nice(visible / (width / 90.0).max(2.0));
        let mut want = Vec::new();
        let mut t = (scroll / step).floor() * step;
        while t <= scroll + visible + step * 0.001 {
            if t >= scroll {
                want.push((b(t), b(42.0 + ((t - scroll) / visible) * width)));
            }
            t += step;
        }
        let found: Vec<(u32, u32)> = w.time_marks(&maths).iter().map(|m| (m.t, m.x)).collect();
        assert_eq!(found, want);
        assert!(found.len() >= 2);
    }
    // a step that no longer moves on ends the ruler
    let stuck = Window { scroll: b(1e9), visible: b(0.001), left: b(0.0), width: b(900.0) };
    assert!(stuck.time_marks(&maths).len() <= 1);
}

#[test]
fn levels_beside_the_waveform() {
    let marks = level_marks(&maths, b(18.0), b(300.0));
    let levels: Vec<f32> = marks.iter().map(|(db, _)| v(*db)).collect();
    assert_eq!(levels, vec![0.0, -3.0, -6.0, -12.0, -24.0]);
    for (db, (top, bottom)) in marks {
        let dy = 10f32.powf(v(db) / 20.0) * 150.0;
        assert_eq!(top, b(168.0 - dy));
        assert_eq!(bottom, b(168.0 + dy));
    }
    let (top, bottom) = ceiling_lines(&maths, b(-6.0), b(0.0), b(200.0));
    let amp = 10f32.powf(-6.0 / 20.0);
    assert_eq!((top, bottom), (b(100.0 - amp * 100.0), b(100.0 + amp * 100.0)));
    assert_eq!(ceiling_lines(&maths, b(3.0), b(0.0), b(200.0)), (b(0.0), b(200.0)));
}

#[test]
fn the_guide_and_its_dashes() {
    let area = Rect { x: b(0.0), y: b(20.0), w: b(100.0), h: b(200.0) };
    let (top, bottom) = guide_lines(b(0.25), &area);
    assert_eq!((v(top), v(bottom)), (95.0, 145.0));
    assert_eq!(guide_level(&maths, b(0.5)), b(20.0 * 0.5f32.log10()));
    let list = dashes(b(10.0), b(40.0), b(8.0), b(6.0));
    let found: Vec<(f32, f32)> = list.iter().map(|(x, y)| (v(*x), v(*y))).collect();
    assert_eq!(found, vec![(10.0, 18.0), (24.0, 32.0), (38.0, 40.0)]);
    assert!(dashes(b(40.0), b(40.0), b(8.0), b(6.0)).is_empty());
    assert_eq!(dashes(b(1.0), b(2.0), b(0.0), b(0.0)).len(), 1);
}

#[test]
fn turns_of_the_wheel() {
    assert_eq!(v(wheel_factor(&maths, b(1.0))), 1.25);
    assert_eq!(wheel_factor(&maths, b(2.5)), b(1.25f32.powf(2.5)));
    assert_eq!(wheel_factor(&maths, b(-2.5)), b(1.0 / 1.25f32.powf(2.5)));
}

#[test]
fn bars_of_the_map() {
    let env = vec![(b(-0.5), b(0.25)), (b(0.0), b(0.0)), (b(-2.0), b(1.0)), (b(-0.1), b(0.1))];
    let bars = map_bars(&maths, &env, 4, b(100.0), b(22.0));
    assert_eq!(bars.len(), 4);
    let tall = 0.5f32.powf(0.6) * 20.0;
    assert_eq!(bars[0], Some((b(121.0 - tall), b(tall))));
    assert_eq!(bars[1], None);
    assert_eq!(bars[2], Some((b(101.0), b(20.0))));
}

#[test]
fn the_scale_of_frequencies() {
    let s = Scale::new(&maths, 48000, 2048);
    assert_eq!(v(s.nyquist), 24000.0);
    assert_eq!(v(s.low), 20.0);
    let coarse = Scale::new(&maths, 48000, 100);
    assert_eq!(v(coarse.low), 240.0);
    let (log_lo, log_hi) = (20f32.log10(), 24000f32.log10());
    let span = (log_hi - log_lo).max(1e-6);
    for part in [0.0f32, 0.25, 0.5, 1.0] {
        assert_eq!(s.hz(&maths, b(part)), b(10f32.powf(log_lo + part * span)));
    }
    for hz in [20.0f32, 440.0, 24000.0] {
        assert_eq!(s.part(&maths, b(hz)), b((hz.log10() - log_lo) / span));
    }
    assert!(s.mark(&maths, b(1000.0), b(10.0), b(500.0)).is_some());
    assert_eq!(s.mark(&maths, b(10.0), b(10.0), b(500.0)), None);
    let (x0, x1) = s.edges(&maths, (b(5.0), b(100.0)), b(10.0), b(500.0));
    assert_eq!(v(x0), 10.0);
    assert_eq!(x1, b(10.0 + ((100f32.log10() - log_lo) / span) * 500.0));
    let (y0, y1) = s.edges(&maths, (b(100.0), b(100.0)), b(10.0), b(500.0));
    assert_eq!(v(y1), v(y0) + 1.0);
}

#[test]
fn a_band_is_picked() {
    let mut w = Waveform {
        duration: b(10.0),
        zoom: b(1.0),
        scroll: b(0.0),
        sample_rate: 44100,
        show_db_ruler: false,
        show_time_ruler: false,
        fft_mode: 3,
        band_bins: 2048,
        guide_amp: None,
        trim_start: None,
        trim_end: None,
        click_repair_mode: false,
    };
    let (lo, hi) = w.corr_freq_range().unwrap();
    let span = (v(hi).log10() - v(lo).log10()).max(1e-6);
    assert_eq!(w.corr_x_to_hz(&maths, b(0.3)), Some(b(10f32.powf(v(lo).log10() + 0.3 * span))));
    assert_eq!(w.corr_x_to_hz(&maths, b(7.0)), w.corr_x_to_hz(&maths, b(1.0)));
    let band = Band { lo: b(0.2), hi: b(0.6) };
    let (from, to) = w.band_frequencies(&maths, band).unwrap();
    assert_eq!(Some(from), w.corr_x_to_hz(&maths, b(0.2)));
    assert_eq!(Some(to), w.corr_x_to_hz(&maths, b(0.6)));
    assert!(v(from) < v(to));
    w.band_bins = 0;
    assert_eq!(w.corr_x_to_hz(&maths, b(0.3)), None);
    assert_eq!(w.band_frequencies(&maths, band), None);
}

#[test]
fn the_curve_over_frequency() {
    let bands: Vec<(u32, u32)> = (0..64).map(|i| (b(i as f32 / 64.0), b(0.5))).collect();
    let list = curve(&maths, &bands, 8000, 50);
    assert_eq!(list.len(), 50);
    let s = Scale::new(&maths, 8000, 64);
    for i in [0usize, 7, 49] {
        let lo = s.hz(&maths, b(i as f32 / 50.0));
        let hi = s.hz(&maths, b((i + 1) as f32 / 50.0));
        assert_eq!(list[i], curve_at(&bands, lo, hi, 8000));
    }
    assert!(list.iter().any(|p| p.is_some()));
    assert!(curve(&maths, &bands, 0, 5).iter().all(|p| p.is_none()));
    assert!(curve(&maths, &Vec::new(), 8000, 5).iter().all(|p| p.is_none()));
}

#[test]
fn rows_of_the_spectrogram() {
    let list = rows(&maths, 48000, 2048, 100);
    assert_eq!(list.len(), 100);
    let s = Scale::new(&maths, 48000, 2048);
    let lo = s.hz(&maths, b(1.0 - 31.0 / 100.0));
    let hi = s.hz(&maths, b(1.0 - 30.0 / 100.0));
    assert_eq!(list[30], Row::new(lo, hi, 48000, 2048));
    assert!(list[0].bin_hi <= 2048 && list[0].bin_lo > list[99].bin_lo);
    assert!(list[99].blend);
}

#[test]
fn the_line_of_a_spectrum() {
    let bins = 512usize;
    let after: Vec<u32> = (0..bins).map(|i| b(-0.1 * i as f32)).collect();
    let before: Vec<u32> = (0..bins).map(|i| b(-20.0 - 0.05 * i as f32)).collect();
    let s = Scale::new(&maths, 44100, bins);
    let (nyq, lo) = (22050f32, 20f32.max(22050.0 / 512.0));
    let (log_lo, log_hi) = (lo.log10(), nyq.log10());
    let xs = bin_places(&maths, &s, bins, b(40.0), b(800.0));
    let hz = |i: usize| (i as f32 / bins as f32) * nyq;
    let bin_x = |i: usize| 40.0 + ((hz(i).log10() - log_lo) / (log_hi - log_lo)) * 800.0;
    let height = |db: f32| {
        let t = ((db + 84.0) / 90.0).clamp(0.0, 1.0);
        10.0 + (1.0 - t) * 120.0
    };
    let points = trace(&s, &after, &xs, b(10.0), b(120.0));
    let want: Vec<(u32, u32)> =
        (1..bins).filter(|i| !(hz(*i) < lo)).map(|i| (b(bin_x(i)), b(height(v(after[i]))))).collect();
    assert_eq!(points.iter().map(|p| (p.x, p.y)).collect::<Vec<_>>(), want);
    let patches = difference(&s, &before, &after, &xs, b(10.0), b(120.0));
    assert_eq!(patches.len(), bins - 2);
    assert!(patches[0].added);
    assert_eq!(patches[3].before_to.x, b(bin_x(5)));
    assert_eq!(patches[3].after_from.y, b(height(v(after[4]))));
    assert!(!patches[bins - 3].added);
    assert!(trace(&s, &Vec::new(), &Vec::new(), b(0.0), b(1.0)).is_empty());
}

#[test]
fn the_grid_of_frequencies() {
    let s = Scale::new(&maths, 22050, 2048);
    let marks = grid(&maths, &s, b(0.0), b(600.0));
    assert_eq!(marks.len(), 14);
    let named: Vec<u32> = marks.iter().filter(|(m, _)| m.named).map(|(m, _)| m.hz).collect();
    assert_eq!(named, vec![50, 100, 500, 1000, 5000, 10000]);
    for (mark, x) in &marks {
        let inside = mark.hz as f32 >= v(s.low) && mark.hz as f32 <= v(s.nyquist);
        assert_eq!(x.is_some(), inside, "{}", mark.hz);
    }
    let names: Vec<String> = named.iter().map(|hz| frequency_name(*hz)).collect();
    assert_eq!(names, vec!["50", "100", "500", "1k", "5k", "10k"]);
}

#[test]
fn the_bell_of_weights() {
    assert_eq!(bell(&maths, 0), vec![b(1.0)]);
    for reach in 1..5usize {
        let sigma = reach as f32 * 0.6;
        let two = 2.0 * sigma * sigma;
        let raw: Vec<f32> = (0..2 * reach + 1)
            .map(|j| {
                let dx = j as f32 - reach as f32;
                (-dx * dx / two).exp()
            })
            .collect();
        let mut sum = 0.0;
        for w in &raw {
            sum += w;
        }
        let want: Vec<u32> = raw.iter().map(|w| b(w / sum)).collect();
        assert_eq!(bell(&maths, reach), want);
    }
}

#[test]
fn the_body_of_the_waveform() {
    let n = 20_000usize;
    let input: Vec<u32> = (0..n).map(|i| b((i as f32 * 0.37).sin() * (0.2 + 0.7 * (i as f32 / n as f32)))).collect();
    let output: Vec<u32> = input.iter().map(|x| b(v(*x).clamp(-0.5, 0.5))).collect();
    let zones = ZoneMap::new();
    let quiet = Quiet::new(&zones, b(n as f32 / 1000.0), 1000, n, None, None);
    let area = Rect { x: b(0.0), y: b(10.0), w: b(200.0), h: b(100.0) };
    let list = draw_body(&maths, &input, &output, 0, n, 200, &area, &quiet, true);
    assert_eq!(list.len(), 200);
    for (px, c) in list.iter().enumerate() {
        // smoothing never hides a peak
        let peak = (px * 100..px * 100 + 100).map(|i| v(output[i])).fold(f32::NEG_INFINITY, f32::max);
        assert!(v(c.body.top) <= 60.0 - peak * 50.0 + 1e-3);
    }
    assert!(list[5].above.is_none() && list[5].below.is_none());
    let cap = list[190].above.unwrap();
    assert!(v(cap.top) < v(cap.bottom));
    assert_eq!(cap.bottom, list[190].body.top);
    assert!(list[190].below.is_some());
    let plain = draw_body(&maths, &input, &output, 0, n, 200, &area, &quiet, false);
    assert!(plain.iter().all(|c| c.above.is_none() && c.below.is_none()));
    assert_eq!(plain[190].body, list[190].body);
    // what is trimmed away has no caps
    let cut = Quiet::new(&zones, b(n as f32 / 1000.0), 1000, n, None, Some(b(18.0)));
    let trimmed = draw_body(&maths, &input, &output, 0, n, 200, &area, &cut, true);
    assert!(trimmed[190].above.is_none());
    assert!(trimmed[170].above.is_some());
}

#[test]
fn layers_of_a_column() {
    let span = Span { top: b(20.0), bottom: b(120.0) };
    let list = layers(&span);
    assert_eq!(list.len(), 11);
    for (i, (y, h)) in list.iter().enumerate() {
        let inset = 100.0 * 0.45 * (i as f32 / 11.0);
        assert_eq!((*y, *h), (b(20.0 + inset), b((100.0 - 2.0 * inset).max(1.0))));
    }
    assert_eq!(layers(&Span { top: b(5.0), bottom: b(5.0) })[0], (b(5.0), b(1.0)));
}

#[test]
fn scopes_and_concerns() {
    let (centre, radius) = gonio_circle(&Rect { x: b(100.0), y: b(50.0), w: b(80.0), h: b(120.0) });
    assert_eq!((v(centre.x), v(centre.y), v(radius)), (140.0, 110.0, 26.0));
    assert_eq!(v(gonio_circle(&Rect { x: 0, y: 0, w: b(10.0), h: b(10.0) }).1), 8.0);
    assert_eq!(rate_correlation(b(0.9)), Concern::Fine);
    assert_eq!(rate_correlation(b(0.84)), Concern::Narrow);
    assert_eq!(rate_correlation(b(0.39)), Concern::Weak);
    assert_eq!(rate_correlation(b(-0.1)), Concern::OutOfPhase);
}

#[test]
fn the_view_is_centred() {
    let mut view = Viewport { zoom: b(4.0), scroll: b(0.0) };
    assert!(view.centre_on(b(10.0), b(20.0)));
    assert_eq!(v(view.scroll), 7.5);
    assert!(!view.centre_on(b(10.0), b(20.0)));
    assert!(view.centre_on(b(0.0), b(20.0)));
    assert_eq!(v(view.scroll), 0.0);
}
