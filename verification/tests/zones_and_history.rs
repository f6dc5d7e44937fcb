//! Zones, their order, and the history of edits.

use peakmuncher::editor::{edit_zone, Editor, FileInfo, Msg, ZoneEdit};
use peakmuncher::dsp::ClipperType;
use peakmuncher::normalize::{Normalize, NormalizeMode, NormalizeState};
use peakmuncher::panels::{ControlTab, Overlay, PanelMsg, SpectrumMode};
use peakmuncher::project::ViewState;
use peakmuncher::session::Session;
use peakmuncher::trim::Trim;
use peakmuncher::viewport::Viewport;
use peakmuncher::worker::{Arrival, DspQueue, Rebuild};
use peakmuncher::zones::{default_dc_blocker_hz, default_oversampling, zones_eq, ZoneMap, ZoneParams};

fn z(x: f32) -> u32 {
    x.to_bits()
}

fn with_splits(times: &[f32]) -> ZoneMap {
    let mut m = ZoneMap::new();
    for t in times {
        m.add_split(z(*t));
    }
    m
}

#[test]
fn zone_defaults() {
    let p = ZoneParams::default();
    assert_eq!(p.ceiling_db, 0);
    assert_eq!(p.clipper, ClipperType::Hard);
    assert_eq!(default_oversampling(), 1);
    assert_eq!(f32::from_bits(default_dc_blocker_hz()), 20.0);
    assert_eq!(ClipperType::Hard.label(), "Hard");
}

#[test]
fn splits_stay_in_order() {
    let m = with_splits(&[3.0, 1.0, 2.0]);
    assert_eq!(m.splits, vec![z(1.0), z(2.0), z(3.0)]);
    assert_eq!(m.zones.len(), 4);
    assert!(m.is_in_order());
}

#[test]
fn crowded_splits_are_refused() {
    let mut m = with_splits(&[1.0]);
    m.add_split(z(1.0005));
    m.add_split(z(0.9995));
    m.add_split(z(1.0));
    assert_eq!(m.splits, vec![z(1.0)]);
}

#[test]
fn a_new_zone_copies_its_parameters() {
    let mut m = ZoneMap::new();
    m.zones[0].ceiling_db = z(-6.0);
    m.add_split(z(2.0));
    assert_eq!(m.zones[0].ceiling_db, z(-6.0));
    assert_eq!(m.zones[1].ceiling_db, z(-6.0));
}

#[test]
fn removing_undoes_adding() {
    let mut m = with_splits(&[1.0, 3.0]);
    let before = m.duplicate();
    m.add_split(z(2.0));
    m.remove_split(1);
    assert!(zones_eq(&m, &before));
    assert_eq!(m.splits, before.splits);
    m.remove_split(7);
    assert_eq!(m.splits.len(), 2);
}

#[test]
fn zones_meet_and_cover_the_file() {
    let m = with_splits(&[1.0, 3.0]);
    let list = m.iter_zones(z(5.0));
    let ends: Vec<(f32, f32)> =
        list.iter().map(|e| (f32::from_bits(e.0), f32::from_bits(e.1))).collect();
    assert_eq!(ends, vec![(0.0, 1.0), (1.0, 3.0), (3.0, 5.0)]);
    assert_eq!(m.zone_at(z(0.5)), 0);
    assert_eq!(m.zone_at(z(1.0)), 1);
    assert_eq!(m.zone_at(z(2.9)), 1);
    assert_eq!(m.zone_at(z(99.0)), 2);
    assert_eq!(m.zone_at(z(-1.0)), 0);
    assert_eq!(m.zone_at(z(f32::NAN)), 0);
}

#[test]
fn zone_edits() {
    let p = ZoneParams::default();
    assert_eq!(edit_zone(&p, ZoneEdit::Ceiling(z(-3.0))).ceiling_db, z(-3.0));
    assert_eq!(edit_zone(&p, ZoneEdit::Clipper(ClipperType::Sigmoid)).clipper, ClipperType::Sigmoid);
    assert_eq!(edit_zone(&p, ZoneEdit::Oversampling(9)).oversampling, 8);
    assert_eq!(edit_zone(&p, ZoneEdit::Oversampling(0)).oversampling, 1);
    assert_eq!(edit_zone(&p, ZoneEdit::Oversampling(3)).oversampling, 2);
    assert_eq!(edit_zone(&p, ZoneEdit::Oversampling(5)).oversampling, 4);
    assert!(edit_zone(&p, ZoneEdit::ToggleDcBlocker).dc_blocker_enabled);
}

fn opened() -> Session {
    let mut s = Session::new();
    s.open(1, ZoneMap::new(), 0, Normalize::new());
    s
}

#[test]
fn undo_and_redo_restore_zones() {
    let mut s = opened();
    s.zones.add_split(z(1.0));
    s.snapshot();
    s.zones.add_split(z(2.0));
    s.snapshot();
    assert!(s.undo());
    assert_eq!(s.zones.splits, vec![z(1.0)]);
    assert!(s.undo());
    assert!(s.zones.splits.is_empty());
    assert!(!s.undo());
    assert!(s.redo());
    assert!(s.redo());
    assert_eq!(s.zones.splits, vec![z(1.0), z(2.0)]);
    assert!(!s.redo());
}

#[test]
fn a_snapshot_drops_what_could_be_redone() {
    let mut s = opened();
    s.zones.add_split(z(1.0));
    s.snapshot();
    s.undo();
    s.zones.add_split(z(4.0));
    s.snapshot();
    assert!(!s.redo());
    assert_eq!(s.zones.splits, vec![z(4.0)]);
    // the same zones once more make no second entry
    let n = s.history.len();
    s.snapshot();
    assert_eq!(s.history.len(), n);
}

#[test]
fn apply_can_be_undone() {
    let mut s = opened();
    s.zones.add_split(z(1.0));
    s.snapshot();
    s.apply(2);
    assert_eq!(s.input, Some(2));
    assert_eq!(s.active_applies(), 1);
    s.undo();
    assert_eq!(s.input, Some(1));
    assert_eq!(s.zones.splits, vec![z(1.0)]);
    assert_eq!(s.active_applies(), 0);
    s.redo();
    assert_eq!(s.input, Some(2));
}

#[test]
fn at_most_five_applies() {
    let mut s = opened();
    for b in 2..9 {
        s.apply(b);
    }
    assert_eq!(s.active_applies(), 5);
    assert_eq!(s.input, Some(8));
    while s.undo() {}
    // what came before the oldest of the five is no longer held
    assert_eq!(s.active_applies(), 1);
    assert_eq!(s.input, Some(4));
}

#[test]
fn trim_handles_stay_in_order() {
    let d = z(10.0);
    let mut t = Trim::at_edges(d);
    assert_eq!(t.start, Some(z(0.0)));
    assert_eq!(t.end, Some(d));
    assert!(t.move_end(z(4.0), d));
    assert!(t.move_start(z(7.0), d));
    assert_eq!(t.start, Some(z(4.0)));
    assert!(!t.move_start(z(9.0), d));
    assert!(t.move_end(z(20.0), d));
    assert_eq!(t.end, Some(d));
    assert_eq!(t.window(100, 1000, d), Some((400, 1000)));
    assert_eq!(Trim::at_edges(d).window(100, 1000, d), None);
    let r = Trim::restore(None, None, d);
    assert_eq!(r.end, Some(d));
}

#[test]
fn normalize_targets_stay_in_range() {
    let mut n = Normalize::new();
    assert_eq!(n.state(), NormalizeState::Off);
    n.set_state(NormalizeState::Lufs);
    assert_eq!(n.mode, NormalizeMode::Lufs);
    assert_eq!(f32::from_bits(n.target_db), -14.0);
    n.set_target(z(-100.0));
    assert_eq!(f32::from_bits(n.target_db), -23.0);
    n.set_target(z(0.0));
    assert_eq!(f32::from_bits(n.target_db), -9.0);
    let kept = n.target_db;
    n.set_state(NormalizeState::Off);
    assert_eq!(n.target_db, kept);
    n.set_state(NormalizeState::Peak);
    assert_eq!(f32::from_bits(n.target_db), -0.3);
    assert_eq!(NormalizeMode::Peak.label(), "Peak");
    assert_eq!(NormalizeMode::Lufs.unit(), "LUFS");
}

#[test]
fn overtaken_renderings_are_dropped() {
    let mut q = DspQueue::new();
    let first = q.request(Rebuild::Full, true).unwrap();
    let second = q.request(Rebuild::Preview, true).unwrap();
    assert_ne!(first, second);
    assert_eq!(q.receive(first, false, true), Arrival::Stale);
    assert_eq!(q.receive(second, true, true), Arrival::Envelopes);
    assert_eq!(q.request(Rebuild::Full, false), None);
    let third = q.request(Rebuild::Full, true).unwrap();
    assert_eq!(q.receive(third, false, true), Arrival::Sound);
}

fn file() -> FileInfo {
    FileInfo { frames: 441000, channels: 2, sample_rate: 44100, duration: z(10.0) }
}

#[test]
fn an_editing_session() {
    let mut ed = Editor::new();
    let out = ed.update(Msg::Opened { input: 1, file: file() });
    assert!(out.canvas);
    ed.update(Msg::AddSplit(z(4.0)));
    assert_eq!(ed.session.zones.splits, vec![z(4.0)]);
    ed.update(Msg::SelectZone(1));
    ed.update(Msg::Edit(ZoneEdit::Ceiling(z(-6.0))));
    ed.update(Msg::Commit);
    assert_eq!(ed.session.zones.zones[1].ceiling_db, z(-6.0));
    assert_eq!(ed.session.zones.zones[0].ceiling_db, z(0.0));
    ed.update(Msg::CopyZoneParams);
    ed.update(Msg::SelectZone(0));
    ed.update(Msg::PasteZoneParams);
    assert_eq!(ed.session.zones.zones[0].ceiling_db, z(-6.0));
    ed.update(Msg::Undo);
    assert_eq!(ed.session.zones.zones[0].ceiling_db, z(0.0));
    ed.update(Msg::MoveSplit(0, z(99.0)));
    assert!(f32::from_bits(ed.session.zones.splits[0]) < 10.0);
    ed.update(Msg::SelectSplit(0));
    ed.update(Msg::DeleteSelectedSplit);
    assert!(ed.session.zones.splits.is_empty());
    assert_eq!(ed.session.selected_split, None);
}

#[test]
fn detection_in_the_editor() {
    let mut ed = Editor::new();
    ed.update(Msg::Opened { input: 1, file: file() });
    ed.update(Msg::OpenAutoDetect(vec![z(2.0), z(5.0)]));
    assert!(matches!(ed.overlay(), Overlay::AutoDetect));
    ed.update(Msg::ApplyAutoDetectReplace);
    assert_eq!(ed.session.zones.splits, vec![z(2.0), z(5.0)]);
    assert!(matches!(ed.overlay(), Overlay::Nothing));
    ed.update(Msg::Undo);
    assert!(ed.session.zones.splits.is_empty());
}

#[test]
fn previews_only_without_normalizing() {
    let mut ed = Editor::new();
    ed.update(Msg::Opened { input: 1, file: file() });
    let out = ed.update(Msg::Edit(ZoneEdit::Ceiling(z(-1.0))));
    assert_eq!(out.rebuild, Rebuild::Preview);
    ed.update(Msg::SetNormalizeState(NormalizeState::Peak));
    let out = ed.update(Msg::Edit(ZoneEdit::Ceiling(z(-2.0))));
    assert_eq!(out.rebuild, Rebuild::Full);
}

#[test]
fn panels() {
    let mut ed = Editor::new();
    let snap = ed.panels.snap_enabled;
    ed.update(Msg::Panel(PanelMsg::ToggleSnap));
    assert_eq!(ed.panels.snap_enabled, !snap);
    ed.update(Msg::Panel(PanelMsg::SelectTab(ControlTab::Fix)));
    assert_eq!(ed.panels.active_tab, ControlTab::Fix);
    let m = SpectrumMode::Off;
    assert_eq!(m.next(), SpectrumMode::Spectrum);
    assert_eq!(m.next().next().next(), m);
    assert_eq!(SpectrumMode::Spectrogram.label(), "FFT: Spectrogram");
    assert_eq!(ControlTab::all().len(), 4);
    assert_eq!(ControlTab::Clipper.label(), "CLIPPER");
    ed.update(Msg::Panel(PanelMsg::ToggleGuide));
    ed.update(Msg::Panel(PanelMsg::SetGuideDb(z(-99.0))));
    assert_eq!(ed.panels.guide_db, Some(z(-60.0)));
}

#[test]
fn a_project_takes_up_the_work() {
    let mut ed = Editor::new();
    ed.update(Msg::Opened { input: 1, file: file() });
    ed.update(Msg::AddSplit(z(2.0)));
    ed.update(Msg::AddSplit(z(5.0)));
    ed.update(Msg::SelectZone(1));
    ed.update(Msg::Edit(ZoneEdit::Ceiling(z(-6.0))));
    ed.update(Msg::SetNormalizeState(NormalizeState::Lufs));
    ed.update(Msg::SetNormalizeTarget(z(-16.0)));
    ed.update(Msg::MoveTrimStart(z(1.0)));
    ed.update(Msg::MoveTrimEnd(z(8.0)));
    ed.update(Msg::Panel(PanelMsg::ToggleSnap));
    let on_screen = Viewport { zoom: z(4.0), scroll: z(1.5) };
    let view = ed.remember(on_screen);
    assert_eq!(view.normalize_mode, Some(NormalizeMode::Lufs));
    let mut again = Editor::new();
    again.update(Msg::ProjectOpened { input: 2, file: file(), zones: ed.session.zones.duplicate(), view });
    assert_eq!(again.session.zones.splits, ed.session.zones.splits);
    assert_eq!(again.session.zones.zones, ed.session.zones.zones);
    assert_eq!(again.session.selected_zone, Some(1));
    assert_eq!(again.session.normalize, ed.session.normalize);
    assert_eq!(again.trim, ed.trim);
    assert_eq!(again.panels.snap_enabled, ed.panels.snap_enabled);
    assert_eq!(Viewport::restore(view.zoom, view.scroll, file().duration), on_screen);
    assert_eq!(Viewport::restore(z(0.1), z(99.0), z(10.0)), Viewport { zoom: z(1.0), scroll: z(10.0) });

    // a project that does not say how loudness is measured keeps what is set
    let mut other = Editor::new();
    other.update(Msg::SetNormalizeState(NormalizeState::Lufs));
    let silent = ViewState { normalize_mode: None, ..view };
    other.update(Msg::ProjectOpened { input: 3, file: file(), zones: ZoneMap::new(), view: silent });
    assert_eq!(other.session.normalize.mode, NormalizeMode::Lufs);
    assert_eq!(other.session.selected_zone, Some(0));
}

#[test]
fn commands_that_are_defined() {
    let nan = f32::NAN.to_bits();
    let mut ed = Editor::new();
    assert!(!ed.can_update(&Msg::MoveSplit(0, z(1.0))));
    assert!(!ed.can_update(&Msg::MoveTrimStart(z(1.0))));
    assert!(ed.can_update(&Msg::Opened { input: 1, file: file() }));
    assert!(!ed.can_update(&Msg::Opened { input: 1, file: FileInfo { duration: nan, ..file() } }));
    ed.update(Msg::Opened { input: 1, file: file() });
    assert!(ed.can_update(&Msg::AddSplit(z(2.0))));
    assert!(!ed.can_update(&Msg::AddSplit(z(11.0))));
    assert!(!ed.can_update(&Msg::AddSplit(nan)));
    assert!(ed.can_update(&Msg::AddSplitAtCursor(z(3.0))));
    ed.update(Msg::AddSplit(z(2.0)));
    assert!(ed.can_update(&Msg::MoveSplit(0, z(4.0))));
    assert!(!ed.can_update(&Msg::MoveSplit(1, z(4.0))));
    assert!(ed.can_update(&Msg::MoveTrimEnd(z(4.0))));
    assert!(!ed.can_update(&Msg::MoveTrimEnd(nan)));
    assert!(ed.can_update(&Msg::OpenAutoDetect(vec![z(1.0), z(2.0)])));
    assert!(!ed.can_update(&Msg::OpenAutoDetect(vec![z(2.0), z(1.0)])));
    let mut crossed = ZoneMap::new();
    crossed.splits = vec![z(5.0), z(3.0)];
    assert!(ed.can_update(&Msg::PresetLoaded(crossed.duplicate())));
    let view = ed.remember(Viewport::new());
    assert!(ed.can_update(&Msg::ProjectOpened { input: 2, file: file(), zones: crossed, view }));
    ed.update(Msg::OpenAutoDetect(vec![z(1.0), z(20.0)]));
    assert!(!ed.can_update(&Msg::ApplyAutoDetectAdd));
    assert!(ed.can_update(&Msg::CloseAutoDetect));
}

#[test]
fn splits_out_of_order_are_left_out() {
    let mut crossed = ZoneMap::new();
    crossed.splits = vec![z(20.0), z(3.0), z(5.0), f32::NAN.to_bits(), z(4.0), z(6.0)];
    let mut ed = Editor::new();
    // without a file only the order counts
    ed.update(Msg::PresetLoaded(crossed.duplicate()));
    assert_eq!(ed.session.zones.splits, vec![z(20.0)]);
    assert_eq!(ed.session.zones.zones.len(), 2);
    // with one the splits beyond it go first
    ed.update(Msg::Opened { input: 1, file: file() });
    ed.update(Msg::PresetLoaded(crossed.duplicate()));
    assert_eq!(ed.session.zones.splits, vec![z(3.0), z(5.0), z(6.0)]);
    assert_eq!(ed.session.zones.zones.len(), 4);
    let view = ed.remember(Viewport::new());
    ed.update(Msg::ProjectOpened { input: 2, file: file(), zones: crossed, view });
    assert_eq!(ed.session.zones.splits, vec![z(3.0), z(5.0), z(6.0)]);
    // a map in order stays
    let mut m = ZoneMap::new();
    m.add_split(z(2.0));
    m.add_split(z(7.0));
    let before = m.splits.clone();
    m.put_in_order();
    assert_eq!(m.splits, before);
    assert_eq!(m.zones.len(), 3);
}

#[test]
fn splits_without_room() {
    let mut m = ZoneMap::new();
    m.add_split(z(2.0));
    m.add_split(z(2.5));
    assert!(m.can_move(0, z(10.0)));
    m.splits = vec![z(2.0), z(2.0005), z(2.001)];
    m.zones = vec![ZoneParams::default(), ZoneParams::default(), ZoneParams::default(), ZoneParams::default()];
    assert!(!m.can_move(1, z(10.0)));
    assert!(m.is_in_order());
}
