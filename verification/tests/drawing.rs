//! The canvas: where things are drawn and what the pointer does.

use peakmuncher::canvas::{y_to_amplitude, CanvasEvent, DragState, Place, Pointer, Scroll, TrimHandle};
use peakmuncher::columns::{
    column_body, columns, half_window, lower_cap, pixels, processing_active, scan, smooth,
    upper_cap, Detail, Quiet, Trace,
};
use peakmuncher::controls::{
    clipped_bar, detection_text, fixed_text, oversampling_choices, peak_tick, scrollbar, tab_rows,
    tick_fits, trim_readout, zone_bar, zone_label, Knob, Row,
};
use peakmuncher::display::{
    cut_at, db_to_y, dot_radius, energy_added, envelope_column, gonio_point, line_points, map_column,
    map_level_at, map_marks, map_place, meter_bar, reduction, reduction_height,
    smooth_curve, split_marker, trim_marker, Area, MeterColour, Point,
};
use peakmuncher::labels::{fmt_time, format_time};
use peakmuncher::normalize::NormalizeMode;
use peakmuncher::panels::ControlTab;
use peakmuncher::viewport::Viewport;
use peakmuncher::waveform::{gonio_rect, mono_badge_rect, Rect, Waveform};
use peakmuncher::zones::ZoneMap;

fn r(x: f32) -> u32 {
    x.to_bits()
}

fn f(b: u32) -> f32 {
    f32::from_bits(b)
}

fn all(v: &[f32]) -> Vec<u32> {
    v.iter().map(|x| x.to_bits()).collect()
}

fn wave() -> Waveform {
    Waveform {
        duration: r(10.0),
        zoom: r(1.0),
        scroll: r(0.0),
        sample_rate: 1000,
        show_db_ruler: false,
        show_time_ruler: false,
        fft_mode: 0,
        band_bins: 0,
        guide_amp: None,
        trim_start: None,
        trim_end: None,
        click_repair_mode: false,
    }
}

fn at(x: f32, y: f32) -> Option<Place> {
    Some(Place { canvas_w: r(1000.0), canvas_h: r(400.0), x: r(x), y: r(y) })
}

#[test]
fn times_as_text() {
    for t in [0.0f32, 0.0004, 0.25, 0.9994, 1.0, 1.005, 59.994, 60.0, 61.5, 599.999, 3661.125, 33_554_432.0, 4_000_000_000.0, 4_294_967_040.0] {
        let want = if t < 1.0 {
            format!("{:.0}ms", t * 1000.0)
        } else if t < 60.0 {
            format!("{:.2}s", t)
        } else {
            let m = (t / 60.0) as u32;
            format!("{}:{:05.2}", m, t - (m * 60) as f32)
        };
        assert_eq!(format_time(r(t)), want);
        let ms = (t * 1000.0).max(0.0) as u64;
        assert_eq!(
            fmt_time(r(t)),
            format!("{}:{:02}.{:03}", ms / 60_000, (ms % 60_000) / 1000, ms % 1000)
        );
    }
    assert_eq!(fmt_time(r(-3.0)), "0:00.000");
}

#[test]
fn numbers_as_text() {
    for v in [0.0f32, -0.0, 0.05, -0.05, 0.25, 1.15, -2.45, 12.5, 13.5, -29.95, 1234.5678] {
        assert_eq!(fixed_text(r(v), 0, false), format!("{v:.0}"));
        assert_eq!(fixed_text(r(v), 1, true), format!("{v:+.1}"));
        assert_eq!(fixed_text(r(v), 2, false), format!("{v:.2}"));
        assert_eq!(fixed_text(r(v), 4, true), format!("{v:+.4}"));
    }
    assert_eq!(Knob::Ceiling.reading(r(-0.3)), "-0.3 dB");
    assert_eq!(Knob::DcBlocker.reading(r(20.0)), "20 Hz");
    assert_eq!(Knob::FadeIn.reading(r(1.25)), "1.25 s");
    assert_eq!(Knob::Sensitivity.reading(r(0.55)), "55%");
    assert_eq!(Knob::Normalize(NormalizeMode::Lufs).reading(r(-14.0)), "-14.0 LUFS");
    let range = Knob::Ceiling.range();
    assert_eq!((f(range.low), f(range.high), f(range.step)), (-30.0, 0.0, 0.1));
}

#[test]
fn control_rows() {
    assert_eq!(tab_rows(ControlTab::Clipper, NormalizeMode::Peak).len(), 3);
    assert_eq!(
        tab_rows(ControlTab::Levels, NormalizeMode::Peak),
        vec![Row::Slider(Knob::InputGain)]
    );
    assert_eq!(oversampling_choices(), [1, 2, 4, 8]);
    let bar = zone_bar(true, false, Some(0), 3);
    assert!(bar.split && !bar.delete && !bar.previous && bar.next);
    assert_eq!(zone_label(Some(1), 3), "Zone 2 of 3");
    assert!(scrollbar(r(10.0), r(1.0)).is_none());
    assert!(scrollbar(r(10.0), r(2.0)).is_some());
    let (from, to, length) = trim_readout(r(10.0), Some(r(2.0)), Some(r(8.5))).unwrap();
    assert!(from.contains("2") && to.contains("8") && length.contains("6"));
    assert!(detection_text(&vec![r(1.0), r(2.5)]).contains("2"));
}

#[test]
fn ceiling_strips() {
    assert!(clipped_bar(r(-6.0), r(-9.0), r(200.0)).is_none());
    assert!(clipped_bar(r(-6.0), r(-3.0), r(200.0)).is_some());
    assert!(tick_fits(r(200.0)) && !tick_fits(r(5.0)));
    let x = f(peak_tick(r(-3.0), r(200.0)));
    assert!((8.0..=192.0).contains(&x));
}

#[test]
fn zooming_keeps_the_view_inside() {
    let mut v = Viewport::new();
    assert_eq!((f(v.zoom), f(v.scroll)), (1.0, 0.0));
    assert!(v.zoom_in(r(5.0), r(10.0)));
    let (zoom, scroll) = (f(v.zoom), f(v.scroll));
    assert!(zoom > 1.0 && scroll >= 0.0 && scroll + 10.0 / zoom <= 10.0 + 1e-4);
    assert!(v.set_scroll(r(99.0), r(10.0)));
    assert!(f(v.scroll) + 10.0 / f(v.zoom) <= 10.0 + 1e-4);
    while v.zoom_out(r(5.0), r(10.0)) {}
    assert_eq!(f(v.zoom), 1.0);
    let mut w = Viewport { zoom: r(4.0), scroll: r(2.0) };
    w.zoom_around_playhead(r(2.0), r(3.0), r(10.0));
    let (old_vis, new_vis) = (10.0f32 / 4.0, 10.0f32 / 8.0);
    let frac = ((3.0f32 - 2.0) / old_vis).clamp(0.0, 1.0);
    assert_eq!(w.scroll, r((3.0 - frac * new_vis).clamp(0.0, (10.0 - new_vis).max(0.0))));
}

#[test]
fn places_and_times() {
    let mut w = wave();
    assert_eq!(f(w.visible_duration()), 10.0);
    assert_eq!(f(w.t_to_x(r(2.5), r(800.0))), 200.0);
    assert_eq!(f(w.x_to_t(r(200.0), r(800.0))), 2.5);
    w.zoom = r(2.0);
    w.scroll = r(1.0);
    assert_eq!(f(w.t_to_x(r(3.5), r(800.0))), 400.0);
    w.show_db_ruler = true;
    assert!(f(w.left_inset()) > 0.0);
    assert!(w.overview_rect(r(800.0), r(400.0)).is_some());
    assert!(w.fft_panel_rect(r(800.0), r(400.0)).is_none());
    w.fft_mode = 2;
    assert!(w.spectrogram_rect(r(800.0), r(400.0)).is_some());
    assert!(w.phase_panel_rect(r(800.0), r(400.0)).is_none());
    let a = Rect { x: r(10.0), y: r(20.0), w: r(100.0), h: r(50.0) };
    assert!(a.contains(r(10.0), r(20.0)) && !a.contains(r(9.0), r(20.0)));
    assert_eq!(f(a.fraction(r(60.0))), 0.5);
    assert!(f(gonio_rect(a).w) <= 100.0);
    assert!(f(mono_badge_rect(a).w) > 0.0);
    assert_eq!(wave().visible_envelope_slice(100), (0, 100));
}

#[test]
fn clicking_and_dragging() {
    let w = wave();
    let mut zones = ZoneMap::new();
    zones.add_split(r(5.0));
    let idle = DragState::default();
    // a press on the split selects it and drags it
    let down = w.update(&zones, idle, Pointer::LeftDown, at(500.0, 200.0));
    assert_eq!(down.state.dragging, Some(0));
    assert!(matches!(down.event, Some(CanvasEvent::SelectSplit(0))));
    let moved = w.update(&zones, down.state, Pointer::Moved, at(600.0, 200.0));
    assert!(matches!(moved.event, Some(CanvasEvent::MoveSplit(0, t)) if f(t) > 5.9 && f(t) < 6.1));
    let up = w.update(&zones, moved.state, Pointer::LeftUp, at(600.0, 200.0));
    assert_eq!(up.state.dragging, None);
    // a press elsewhere
    let other = w.update(&zones, idle, Pointer::LeftDown, at(200.0, 200.0));
    assert!(other.state.dragging.is_none());
    assert!(other.event.is_some());
    // nothing happens outside
    let none = w.update(&zones, idle, Pointer::LeftDown, None);
    assert!(none.event.is_none() && !none.captured);
    let wheel = w.update(&zones, idle, Pointer::Wheel(Scroll::Lines(0, r(1.0))), at(500.0, 200.0));
    assert!(matches!(wheel.event, Some(CanvasEvent::Zoom(..))));
    let menu = w.update(&zones, idle, Pointer::RightDown, at(700.0, 200.0));
    assert!(matches!(menu.event, Some(CanvasEvent::RightClickZone(1, ..))));
}

#[test]
fn trim_handles_on_the_canvas() {
    let mut w = wave();
    w.trim_start = Some(r(2.0));
    w.trim_end = Some(r(8.0));
    let zones = ZoneMap::new();
    let s = w.spot_at(at(200.0, 1.0).unwrap());
    assert!(w.hit_split(s, &zones).is_none());
    let down = w.update(&zones, DragState::default(), Pointer::LeftDown, at(200.0, 5.0));
    if let Some(handle) = down.state.dragging_trim {
        assert_eq!(handle, TrimHandle::Start);
        let moved = w.update(&zones, down.state, Pointer::Moved, at(300.0, 5.0));
        assert!(matches!(moved.event, Some(CanvasEvent::MoveTrimStart(_))));
    }
    assert_eq!(f(y_to_amplitude(r(100.0), r(200.0))), 1e-6);
    assert_eq!(f(y_to_amplitude(r(50.0), r(200.0))), 0.5);
}

#[test]
fn columns_of_samples() {
    let s = all(&[0.1, 0.5, -0.3, 0.2, -0.9, 0.0]);
    assert_eq!(scan(&s, 0, 3), (r(0.5), r(-0.3)));
    assert_eq!(peakmuncher::columns::column(0, 3, 0, 6), (0, 2));
    assert_eq!(peakmuncher::columns::column(2, 3, 0, 6), (4, 6));
    let list = columns(&s, 0, 6, 3);
    let got: Vec<(f32, f32)> = list.iter().map(|e| (f(e.hi), f(e.lo))).collect();
    assert_eq!(got, vec![(0.5, 0.1), (0.2, -0.3), (0.0, -0.9)]);
    assert_eq!(pixels(r(99.7)), 99);
    assert!(half_window(r(1.0)) <= half_window(r(100.0)));
    let same = smooth(&all(&[1.0, 1.0, 1.0]), &all(&[1.0]), 0, true);
    assert_eq!(same, all(&[1.0, 1.0, 1.0]));
}

#[test]
fn levels_of_detail() {
    let mut w = wave();
    assert_eq!(w.detail_at(r(1000.0), true, true), Detail::Columns);
    w.zoom = r(10000.0);
    assert_eq!(w.detail_at(r(1000.0), true, true), Detail::Dots);
    assert_eq!(wave().envelope_source(r(1000.0), 2000, false), Trace::Stored);
    assert_eq!(wave().visible_frames(10000), Some((0, 10000)));
}

#[test]
fn quiet_stretches() {
    let mut zones = ZoneMap::new();
    zones.zones[0].fade_in_secs = r(1.0);
    let q = Quiet::new(&zones, r(10.0), 1000, 10000, Some(r(2.0)), Some(r(8.0)));
    assert!(q.hides(500));
    assert!(q.hides(2500));
    assert!(!q.hides(5000));
    assert!(q.hides(9000));
}

#[test]
fn caps_of_what_was_cut() {
    let body = column_body(r(0.5), r(-0.5), r(100.0), r(80.0));
    assert_eq!((f(body.top), f(body.bottom)), (60.0, 140.0));
    let cap = upper_cap(r(0.9), r(0.5), body.top, r(100.0), r(80.0), r(0.0)).unwrap();
    assert!(f(cap.top) < f(cap.bottom) && f(cap.bottom) <= 60.0);
    assert!(upper_cap(r(0.5), r(0.5), body.top, r(100.0), r(80.0), r(0.0)).is_none());
    let low = lower_cap(r(-0.9), r(-0.5), body.bottom, r(100.0), r(80.0), r(200.0)).unwrap();
    assert!(f(low.top) >= 140.0 && f(low.bottom) > f(low.top));
    assert!(!processing_active(&Vec::new(), &Vec::new(), &all(&[0.5]), &all(&[0.5])));
    assert!(processing_active(&Vec::new(), &Vec::new(), &all(&[0.5]), &all(&[0.25])));
}

#[test]
fn lines_and_splines() {
    let a = Area { left: r(0.0), width: r(100.0), mid: r(50.0), half: r(40.0) };
    let p = line_points(&all(&[0.0, 1.0, -1.0]), 0, 3, &a);
    assert_eq!(p.len(), 3);
    assert_eq!(f(p[0].y), 50.0);
    assert_eq!(f(p[1].y), 10.0);
    assert_eq!(f(p[2].y), 90.0);
    assert!(f(p[0].x) < f(p[1].x));
    let curve = smooth_curve(&p);
    assert!(curve.len() > p.len());
    assert_eq!(curve.last().map(|q| f(q.y)), Some(90.0));
    assert!(f(dot_radius(r(100.0), 10)) > 0.0);
    let (x, top, bottom) = envelope_column(&a, 0, 10, (r(-0.5), r(0.5)));
    assert!(f(x) >= 0.0 && f(top) <= 50.0 && f(bottom) > 0.0);
}

#[test]
fn markers() {
    assert!(split_marker(r(-50.0), r(0.0), r(0.0), r(100.0), r(50.0)).is_none());
    let m = split_marker(r(50.0), r(0.0), r(0.0), r(100.0), r(50.0)).unwrap();
    assert_eq!(f(m.x), 50.0);
    let t = trim_marker(r(50.0), r(0.0), r(0.0), r(100.0), r(50.0), true).unwrap();
    assert_ne!(f(t.upper.tip.x), f(t.upper.a.x));
}

#[test]
fn reductions() {
    let a = all(&[0.0, 1.0, 0.5, -1.0]);
    let b = all(&[0.0, 0.5, 0.5, -0.25]);
    let out = reduction(&a, &b, 4, 0, 4);
    assert_eq!(out.len(), 4);
    assert!(f(out[1]) > 0.0);
    assert!(reduction(&a, &a, 4, 0, 4).iter().all(|v| f(*v) == 0.0));
    assert!(reduction_height(r(0.0), r(0.0)).is_none());
    assert!(reduction_height(r(0.5), r(0.5f32.sqrt())).is_some());
    let zones = ZoneMap::new();
    let q = Quiet::new(&zones, r(1.0), 4, 4, None, None);
    let area = Area { left: r(0.0), width: r(40.0), mid: r(50.0), half: r(40.0) };
    assert!(cut_at(&area, &a, &b, &q, 1, 0, 4).is_some());
    assert!(cut_at(&area, &a, &b, &q, 2, 0, 4).is_none());
}

#[test]
fn meters_and_scopes() {
    assert!(matches!(meter_bar(r(0.5), r(100.0)).1, MeterColour::Green));
    assert!(matches!(meter_bar(r(0.9), r(100.0)).1, MeterColour::Yellow));
    assert!(matches!(meter_bar(r(1.2), r(100.0)).1, MeterColour::Red));
    assert!(f(db_to_y(r(0.0), r(0.0), r(90.0))) < f(db_to_y(r(-60.0), r(0.0), r(90.0))));
    assert!(energy_added((r(-0.1), r(0.1)), (r(-0.5), r(0.5))));
    let p = gonio_point(Point { x: r(50.0), y: r(50.0) }, r(40.0), r(0.5), r(0.5));
    assert_eq!(f(p.x), 50.0);
    assert!(f(p.y) < 50.0);
}

#[test]
fn overview_maps() {
    assert_eq!(map_column(0, 4, 100), (0, 25));
    assert_eq!(map_column(3, 4, 100), (75, 100));
    let env: Vec<(u32, u32)> = (0..8).map(|i| (r(-(i as f32) * 0.1), r(0.05))).collect();
    assert_eq!(map_level_at(&env, 3, 4).map(f), Some(0.7));
    assert_eq!(f(map_place(r(5.0), r(10.0), r(0.0), r(200.0))), 100.0);
    assert!(map_marks(r(1.0), r(0.0), r(10.0), r(10.0), r(0.0), r(200.0)).is_none());
    let m = map_marks(r(2.0), r(2.5), r(5.0), r(10.0), r(0.0), r(200.0)).unwrap();
    assert_eq!((f(m.from), f(m.to)), (50.0, 150.0));
}
