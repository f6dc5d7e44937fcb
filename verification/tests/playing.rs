//! Playback, meters and the playhead.

use peakmuncher::playback::{output_sample, update_peak, Player, Source, Step};
use peakmuncher::transport::{line_is_stale, Transport};

fn r(x: f32) -> u32 {
    x.to_bits()
}

fn f(b: u32) -> f32 {
    f32::from_bits(b)
}

fn all(v: &[f32]) -> Vec<u32> {
    v.iter().map(|x| x.to_bits()).collect()
}

fn loaded() -> Player {
    let mut p = Player::new(48000);
    p.load(all(&[0.1, 0.2, 0.3, 0.4, 0.5, 0.6]), all(&[1.0, -1.0, 0.5, -0.5, 0.0, 0.0]), 2, 24000);
    p
}

fn steps(frames: &[usize]) -> Vec<Step> {
    frames.iter().map(|i| Step { index: *i, frac: 0 }).collect()
}

#[test]
fn the_player_plays_the_chosen_source() {
    let mut p = loaded();
    p.set_source(Source::Input);
    p.play();
    assert!(p.is_playing());
    let out = p.fill_steps(4, 2, &steps(&[0, 1]), 2);
    assert_eq!(out, all(&[0.1, 0.2, 0.3, 0.4]));
    p.toggle_source();
    assert_eq!(p.current_source(), Source::Processed);
    let out = p.fill_steps(2, 2, &steps(&[0]), 1);
    assert_eq!(out, all(&[1.0, -1.0]));
}

#[test]
fn a_paused_player_is_silent() {
    let mut p = loaded();
    p.pause();
    assert_eq!(p.fill_steps(4, 2, &steps(&[0, 1]), 2), vec![0, 0, 0, 0]);
    let mut none = Player::new(48000);
    none.play();
    assert_eq!(none.fill_steps(2, 2, &steps(&[0]), 1), vec![0, 0]);
}

#[test]
fn mono_reaches_every_channel() {
    let src = all(&[0.5, -0.1, 0.2, 0.4]);
    let at = Step { index: 0, frac: 0 };
    let l = output_sample(&src, 2, 2, at, true, 2, 0);
    let right = output_sample(&src, 2, 2, at, true, 2, 1);
    assert_eq!(l, right);
    assert_eq!(f(l), (0.5 + -0.1) * 0.5);
}

#[test]
fn samples_are_interpolated() {
    let src = all(&[0.0, 1.0]);
    let got = output_sample(&src, 1, 2, Step { index: 0, frac: r(0.25) }, false, 1, 0);
    assert_eq!(f(got), 0.25);
    // the last frame has none behind it
    let last = output_sample(&src, 1, 2, Step { index: 1, frac: r(0.5) }, false, 1, 0);
    assert!(f(last) <= 1.0);
}

#[test]
fn seeking_and_stopping() {
    let mut p = loaded();
    p.seek(2);
    assert_eq!(p.state.frame, 2);
    assert_eq!(f(p.position_secs()), 2.0 / 24000.0);
    p.toggle();
    assert!(p.is_playing());
    p.stop();
    assert!(!p.is_playing());
    assert_eq!(p.state.frame, 0);
    p.update_processed(all(&[0.9; 6]));
    assert_eq!(p.buffers.as_ref().unwrap().processed, all(&[0.9; 6]));
}

#[test]
fn peaks_only_rise() {
    let mut slot = 0u32;
    update_peak(&mut slot, r(0.5));
    let half = slot;
    update_peak(&mut slot, r(0.25));
    assert_eq!(slot, half);
    update_peak(&mut slot, r(-0.75));
    assert_eq!(slot, 500_000);
    update_peak(&mut slot, r(0.75));
    assert_eq!(slot, 750_000);
    let mut p = loaded();
    p.play();
    p.fill_steps(4, 2, &steps(&[0, 1]), 2);
    let (a, b) = p.take_peaks();
    assert!((f(a) - 0.3).abs() < 1e-6 && f(b) == 1.0);
    assert_eq!(p.take_peaks(), (0, 0));
}

#[test]
fn meters_fall_in_silence() {
    let mut t = Transport::new();
    t.tick(r(0.0), r(1.0), r(1.0), false);
    let high = f(t.meter_in);
    assert!(high > 0.0);
    t.tick(r(0.0), r(0.0), r(0.0), false);
    assert!(f(t.meter_in) < high);
    assert!(t.needs_tick(false));
    for _ in 0..200 {
        t.tick(r(0.0), r(0.0), r(0.0), false);
    }
    assert!(!t.needs_tick(false));
    assert!(t.needs_tick(true));
}

#[test]
fn the_playhead_moves() {
    let mut t = Transport::new();
    assert!(t.tick(r(1.0), 0, 0, false).moved);
    assert_eq!(f(t.playhead), 1.0);
    assert!(!t.tick(r(1.0), 0, 0, false).moved);
    t.seek(r(3.0));
    assert_eq!(t.probe_frame(100), 300);
    assert!(t.hover(Some(r(4.0)), Some(r(10.0))));
    t.stop();
    assert_eq!(t.playhead, 0);
    assert!(line_is_stale(None, false, 5));
    assert!(!line_is_stale(Some(5), true, 5));
    assert!(!line_is_stale(Some(5), true, 1028));
    assert!(line_is_stale(Some(5), true, 1029));
}

#[test]
fn sounds_of_unequal_length() {
    let mut p = Player::new(48000);
    assert!(p.can_fill());
    p.load(all(&[0.1, 0.2, 0.3, 0.4]), all(&[1.0, -1.0]), 2, 24000);
    p.set_source(Source::Processed);
    assert!(p.can_fill());
    p.set_source(Source::Input);
    assert!(!p.can_fill());
    assert!(loaded().can_fill());
}
