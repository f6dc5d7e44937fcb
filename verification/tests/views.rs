//! The view of the file, and small questions about zones and settings.

use peakmuncher::playback::{Player, Source, Step};
use peakmuncher::settings::ThemeChoice;
use peakmuncher::viewport::Viewport;
use peakmuncher::waveform::Waveform;
use peakmuncher::zones::ZoneMap;

fn r(x: f32) -> u32 {
    x.to_bits()
}

fn f(b: u32) -> f32 {
    f32::from_bits(b)
}

fn wave(zoom: f32, scroll: f32) -> Waveform {
    Waveform {
        duration: r(10.0),
        zoom: r(zoom),
        scroll: r(scroll),
        sample_rate: 1000,
        show_db_ruler: false,
        show_time_ruler: false,
        fft_mode: 0,
        band_bins: 0,
        guide_amp: None,
        trim_start: Some(r(2.0)),
        trim_end: Some(r(7.5)),
        click_repair_mode: false,
    }
}

#[test]
fn zooming_at_the_pointer_by_hand() {
    let duration = 10.0f32;
    let (mut zoom, mut scroll) = (1.0f32, 0.0f32);
    let mut v = Viewport::new();
    for (factor, anchor) in [(1.25f32, 3.0f32), (4.0, 2.2), (0.5, 9.9), (1.0001, 5.0), (0.01, 4.0), (1e9, 7.0)] {
        let wanted = (zoom * factor).clamp(1.0, 1_000_000.0);
        let changes = (wanted - zoom).abs() > 1e-3;
        if changes {
            let (before, after) = (duration / zoom, duration / wanted);
            let place = ((anchor - scroll) / before).clamp(0.0, 1.0);
            scroll = (anchor - place * after).clamp(0.0, (duration - after).max(0.0));
            zoom = wanted;
        }
        assert_eq!(v.zoom_at(r(factor), r(anchor), r(duration)), changes);
        assert_eq!((f(v.zoom), f(v.scroll)), (zoom, scroll));
    }
}

#[test]
fn panning_stops_at_the_ends() {
    let mut v = Viewport { zoom: r(4.0), scroll: r(1.0) };
    assert!(v.pan(r(0.5), r(10.0)));
    assert_eq!(f(v.scroll), 1.5);
    assert!(!v.pan(r(1e-8), r(10.0)));
    assert!(v.pan(r(100.0), r(10.0)));
    assert_eq!(f(v.scroll), 7.5);
    assert!(v.pan(r(-100.0), r(10.0)));
    assert_eq!(f(v.scroll), 0.0);
}

#[test]
fn zooming_in_and_out_again() {
    let mut v = Viewport::new();
    assert!(v.zoom_in(r(4.0), r(10.0)));
    assert_eq!((f(v.zoom), f(v.scroll)), (2.0, 2.0));
    assert!(v.zoom_in(r(4.0), r(10.0)));
    assert_eq!((f(v.zoom), f(v.scroll)), (4.0, 3.0));
    assert!(v.zoom_out(r(4.0), r(10.0)));
    assert!(v.zoom_out(r(4.0), r(10.0)));
    assert_eq!((f(v.zoom), f(v.scroll)), (1.0, 0.0));
    assert!(!v.zoom_out(r(4.0), r(10.0)));
}

#[test]
fn zones_are_cut_at_the_edges() {
    let w = wave(2.0, 1.0);
    // the window shows seconds one to six on 100 pixels from 20 on
    assert_eq!(w.zone_stretch(r(0.0), r(2.0), r(20.0), r(100.0)), Some((r(20.0), r(40.0))));
    assert_eq!(w.zone_stretch(r(2.0), r(3.5), r(20.0), r(100.0)), Some((r(40.0), r(70.0))));
    assert_eq!(w.zone_stretch(r(5.0), r(10.0), r(20.0), r(100.0)), Some((r(100.0), r(120.0))));
    assert_eq!(w.zone_stretch(r(8.0), r(10.0), r(20.0), r(100.0)), None);
}

#[test]
fn trimmed_parts_are_dark() {
    let w = wave(1.0, 0.0);
    assert_eq!(w.trimmed_lead(r(20.0), r(100.0)), Some((r(20.0), r(40.0))));
    assert_eq!(w.trimmed_tail(r(20.0), r(100.0)), Some((r(95.0), r(120.0))));
    let whole = Waveform { trim_start: Some(0), trim_end: Some(r(10.0)), ..w };
    assert_eq!(whole.trimmed_lead(r(20.0), r(100.0)), None);
    assert_eq!(whole.trimmed_tail(r(20.0), r(100.0)), None);
}

#[test]
fn folding_to_mono() {
    let mut p = Player::new(48000);
    let sound: Vec<u32> = [0.5f32, -0.1, 0.2, 0.4].iter().map(|x| x.to_bits()).collect();
    p.load(sound.clone(), sound, 2, 48000);
    p.set_source(Source::Input);
    p.play();
    let steps = vec![Step { index: 0, frac: 0 }, Step { index: 1, frac: 0 }];
    p.set_mono_fold(true);
    let folded = p.fill_steps(4, 2, &steps, 2);
    let mean = |a: f32, b: f32| r((a + b) / 2.0);
    assert_eq!(folded, vec![mean(0.5, -0.1), mean(0.5, -0.1), mean(0.2, 0.4), mean(0.2, 0.4)]);
    p.set_mono_fold(false);
    assert_eq!(p.fill_steps(4, 2, &steps, 2), vec![r(0.5), r(-0.1), r(0.2), r(0.4)]);
}

#[test]
fn questions_about_zones_and_themes() {
    let mut m = ZoneMap::new();
    assert!(!m.needs_oversampling() && m.is_in_order());
    m.zones[0].oversampling = 2;
    assert!(m.needs_oversampling());
    m.splits = vec![r(2.0), r(1.0)];
    assert!(!m.is_in_order());
    m.splits = vec![r(1.0), r(f32::NAN)];
    assert!(!m.is_in_order());
    assert_eq!(ThemeChoice::Dark.theme_name(), "PeakMuncher Dark");
    assert_eq!(ThemeChoice::Light.theme_name(), "PeakMuncher Light");
}

#[test]
fn marks_of_found_clicks() {
    let w = wave(1.0, 0.0);
    let clicks = vec![0, 5000, 10_000, 20_000];
    let marks = w.click_marks(&clicks, Some(1), r(10.0), r(100.0));
    assert_eq!(marks.iter().map(|m| f(m.x)).collect::<Vec<_>>(), vec![10.0, 60.0, 110.0]);
    let looks: Vec<[f32; 4]> =
        marks.iter().map(|m| [f(m.tick_w), f(m.tick_h), f(m.tick_alpha), f(m.line_alpha)]).collect();
    assert_eq!(looks[0], [2.0, 12.0, 0.85, 0.22]);
    assert_eq!(looks[1], [2.5, 18.0, 1.0, 0.5]);
    assert!(Waveform { sample_rate: 0, ..wave(1.0, 0.0) }.click_marks(&clicks, None, r(0.0), r(1.0)).is_empty());
}
