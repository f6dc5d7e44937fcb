//! The editor: what every command of the user does to the session, and what
//! the program has to do next.
//!
//! The editor holds no sound and draws nothing. A command changes its state
//! and yields [`Effects`]: which layers to repaint, whether to render, which
//! spectrograms to compute. The program carries them out and hands results
//! back as further commands.

use vstd::prelude::*;
use crate::dsp::ClipperType;
use crate::normalize::{Normalize, NormalizeState};
use crate::effects::{Effects, LineAction, Note, quiet, repaint, quiet_effects, repaint_effects};
use crate::project::ViewState;
use crate::panels::{Panels, PanelMsg, SpectrumMode, ZoneMenu, Overlay};
use crate::scalar::{negated, neg};
use crate::session::{Session, SessionModel, EntryModel, BufferId, lemma_snapshot_wf, lemma_apply_wf};
use crate::single::{Bits, INFINITY, less, less_than, at_most, clamped, clamp, not_negative, at_least_zero, is_nan, not_a_number, unsigned};
use crate::single::{lemma_pattern_order, lemma_zero};
use crate::trim::{Trim, moved};
use crate::viewport::Viewport;
use crate::worker::{DspQueue, Rebuild, Arrival};
use crate::zones::{ZoneMap, ZoneParams, MapModel, in_order, are_in_order, inside, fades, law_ordered_stays, plain_zone, zone_of};

verus! {

/// The sensitivity at which detection starts, 0.55.
pub const DETECT_START: Bits = 0x3f0c_cccd;

/// The file that is open.
#[derive(Clone, Copy, PartialEq, Eq, Debug, Structural)]
pub struct FileInfo {
    pub frames: usize,
    pub channels: u16,
    pub sample_rate: u32,
    pub duration: Bits,
}

/// Splits proposed by detection, not yet taken over.
pub struct Detection {
    pub sensitivity: Bits,
    pub preview: Vec<Bits>,
}

/// One change of a zone's parameters.
#[derive(Clone, Copy, PartialEq, Eq, Debug, Structural)]
pub enum ZoneEdit {
    Ceiling(Bits),
    InputGain(Bits),
    OutputGain(Bits),
    DcOffset(Bits),
    Clipper(ClipperType),
    FadeIn(Bits),
    FadeOut(Bits),
    ToggleDcBlocker,
    DcBlockerHz(Bits),
    Oversampling(u8),
}

/// A command.
pub enum Msg {
    /// A control around the waveform.
    Panel(PanelMsg),
    /// A file was read.
    Opened { input: BufferId, file: FileInfo },
    /// A project and its file were read.
    ProjectOpened {
        input: BufferId,
        file: FileInfo,
        zones: ZoneMap,
        view: ViewState,
    },
    /// Split at the playhead, once snapped.
    AddSplitAtCursor(Bits),
    /// Split where the waveform was clicked, once snapped.
    AddSplit(Bits),
    SelectSplit(usize),
    SelectZone(usize),
    Seek(Bits),
    MoveSplit(usize, Bits),
    MoveTrimStart(Bits),
    MoveTrimEnd(Bits),
    ZoneContextMenu(ZoneMenu),
    DeleteSelectedSplit,
    DeleteSplitAt(usize),
    Edit(ZoneEdit),
    /// The mean of the selected zone's samples was measured.
    DcMeasured(Bits),
    /// The processed sound was rendered into a buffer.
    ApplyProcessing(BufferId),
    PrevZone,
    NextZone,
    SelectZoneIdx(usize),
    /// A rendering arrived.
    DspDone { gen: u64, preview: bool },
    Undo,
    Redo,
    Commit,
    CopyZoneParams,
    PasteZoneParams,
    SetNormalizeState(NormalizeState),
    SetNormalizeTarget(Bits),
    PresetLoaded(ZoneMap),
    /// Opens detection, with the splits found at its first sensitivity.
    OpenAutoDetect(Vec<Bits>),
    CloseAutoDetect,
    /// Sets the sensitivity, with the splits found at it.
    SetDetectSensitivity(Bits, Vec<Bits>),
    ApplyAutoDetectReplace,
    ApplyAutoDetectAdd,
}

/// The editor's state.
pub struct Editor {
    pub session: Session,
    pub file: Option<FileInfo>,
    pub trim: Trim,
    pub panels: Panels,
    pub clipboard: Option<ZoneParams>,
    pub detection: Option<Detection>,
    pub dsp: DspQueue,
}

// ---- Model ------------------------------------------------------------------

/// Proposed splits.
#[verifier::ext_equal]
pub struct DetectionModel {
    pub sensitivity: Bits,
    pub preview: Seq<Bits>,
}

/// What an editor stands for.
#[verifier::ext_equal]
pub struct EditorModel {
    pub session: SessionModel,
    pub file: Option<FileInfo>,
    pub trim: Trim,
    pub panels: Panels,
    pub clipboard: Option<ZoneParams>,
    pub detection: Option<DetectionModel>,
    pub dsp: DspQueue,
}

pub open spec fn detection_view(d: Option<Detection>) -> Option<DetectionModel> {
    match d {
        None => None,
        Some(x) => Some(DetectionModel { sensitivity: x.sensitivity, preview: x.preview@ }),
    }
}

impl View for Editor {
    type V = EditorModel;

    open spec fn view(&self) -> EditorModel {
        EditorModel {
            session: self.session@,
            file: self.file,
            trim: self.trim,
            panels: self.panels,
            clipboard: self.clipboard,
            detection: detection_view(self.detection),
            dsp: self.dsp,
        }
    }
}

/// The parameters after an edit, kept in the range of their control.
pub open spec fn edited(z: ZoneParams, e: ZoneEdit) -> ZoneParams {
    match e {
        ZoneEdit::Ceiling(db) => ZoneParams { ceiling_db: db, ..z },
        ZoneEdit::InputGain(db) => ZoneParams { input_gain_db: db, ..z },
        ZoneEdit::OutputGain(db) => ZoneParams { output_gain_db: db, ..z },
        ZoneEdit::DcOffset(v) => ZoneParams { dc_offset: clamped(v, 0xbf00_0000, 0x3f00_0000), ..z },
        ZoneEdit::Clipper(c) => ZoneParams { clipper: c, ..z },
        ZoneEdit::FadeIn(s) => ZoneParams { fade_in_secs: not_negative(s), ..z },
        ZoneEdit::FadeOut(s) => ZoneParams { fade_out_secs: not_negative(s), ..z },
        ZoneEdit::ToggleDcBlocker => ZoneParams { dc_blocker_enabled: !z.dc_blocker_enabled, ..z },
        ZoneEdit::DcBlockerHz(hz) => ZoneParams {
            dc_blocker_hz: clamped(hz, 0x40a0_0000, 0x4270_0000),
            ..z
        },
        ZoneEdit::Oversampling(n) => ZoneParams { oversampling: supported_factor(n), ..z },
    }
}

/// The largest oversampling factor there is that is not above `n`.
pub open spec fn supported_factor(n: u8) -> u8 {
    if n < 2 {
        1
    } else if n < 4 {
        2
    } else if n < 8 {
        4
    } else {
        8
    }
}

/// Is an edit recorded at once? Sliders are recorded when they are released.
pub open spec fn recorded_at_once(e: ZoneEdit) -> bool {
    e is Clipper || e is ToggleDcBlocker || e is Oversampling
}

/// The rendering that an edit asks for. Normalisation measures the whole file,
/// so no preview can stand in for it. Oversampling only matters on export.
pub open spec fn rebuild_for(e: ZoneEdit, normalized: bool) -> Rebuild {
    match e {
        ZoneEdit::Ceiling(_) | ZoneEdit::InputGain(_) | ZoneEdit::OutputGain(_) => if normalized {
            Rebuild::Full
        } else {
            Rebuild::Preview
        },
        ZoneEdit::Oversampling(_) => Rebuild::Skip,
        _ => Rebuild::Full,
    }
}

/// Adds splits one after the other.
pub open spec fn with_all(m: MapModel, ts: Seq<Bits>) -> MapModel
    decreases ts.len(),
{
    if ts.len() == 0 {
        m
    } else {
        with_all(m, ts.drop_last()).with_split(ts.last())
    }
}

/// Every split lies at or before the end of the file.
pub open spec fn within(s: Seq<Bits>, duration: Bits) -> bool {
    forall|i: int| 0 <= i < s.len() ==> #[trigger] s[i] <= duration
}

fn is_within(s: &Vec<Bits>, duration: Bits) -> (r: bool)
    ensures
        r == within(s@, duration),
{
    let mut i: usize = 0;
    while i < s.len()
        invariant
            i <= s@.len(),
            forall|k: int| 0 <= k < i ==> #[trigger] s@[k] <= duration,
        decreases s@.len() - i,
    {
        if s[i] > duration {
            assert(!(s@[i as int] <= duration));
            return false;
        }
        i = i + 1;
    }
    true
}

fn is_number(t: Option<Bits>) -> (r: bool)
    ensures
        r == (t matches Some(a) ==> !is_nan(a)),
{
    match t {
        Some(a) => !not_a_number(a),
        None => true,
    }
}

pub open spec fn entry_within(e: EntryModel, duration: Bits) -> bool {
    match e {
        EntryModel::Params { map } => within(map.splits, duration),
        EntryModel::Apply { prev_map, .. } => within(prev_map.splits, duration),
    }
}

pub open spec fn session_within(s: SessionModel, duration: Bits) -> bool {
    &&& within(s.zones.splits, duration)
    &&& forall|i: int| 0 <= i < s.history.len() ==> entry_within(#[trigger] s.history[i], duration)
}

impl EditorModel {
    /// The session is sound, and where a file is open its splits (now and in
    /// the history) and the trim handles lie inside it.
    pub open spec fn wf(self) -> bool {
        &&& self.session.wf()
        &&& self.file is Some <==> self.session.input is Some
        &&& self.file matches Some(f) ==> {
            &&& f.duration < INFINITY
            &&& self.trim.wf(f.duration)
            &&& session_within(self.session, f.duration)
        }
        &&& self.detection matches Some(d) ==> in_order(d.preview)
    }

    pub open spec fn is_open(self) -> bool {
        self.file is Some
    }

    /// Asks for a rendering.
    pub open spec fn rendering(self, r: Rebuild, e: Effects) -> (EditorModel, Effects) {
        (
            EditorModel { dsp: self.dsp.requested(r, self.is_open()), ..self },
            Effects {
                rebuild: if self.is_open() {
                    r
                } else {
                    Rebuild::Skip
                },
                ..e
            },
        )
    }

    pub open spec fn with_session(self, s: SessionModel) -> EditorModel {
        EditorModel { session: s, ..self }
    }

    pub open spec fn with_panels(self, p: Panels) -> EditorModel {
        EditorModel { panels: p, ..self }
    }

    /// Other zones, recorded in the history.
    pub open spec fn recording(self, zones: MapModel) -> EditorModel {
        self.with_session(SessionModel { zones, ..self.session }.snapshotted())
    }

    /// The selected zone, where there is one.
    pub open spec fn current(self) -> Option<int> {
        match self.session.selected_zone {
            Some(i) => if i < self.session.zones.zones.len() {
                Some(i as int)
            } else {
                None
            },
            None => None,
        }
    }

    pub open spec fn selecting(self, zone: usize) -> EditorModel {
        self.with_session(
            SessionModel { selected_zone: Some(zone), selected_split: None, ..self.session },
        )
    }

    /// The effects of a newly opened file.
    pub open spec fn opening_effects(self, spectrograms: bool) -> Effects {
        Effects {
            canvas: true,
            overlay: true,
            peak: true,
            line: LineAction::Drop,
            spectrogram_in: spectrograms && self.panels.spectrum == SpectrumMode::Spectrogram,
            spectrogram_out: spectrograms && self.panels.spectrum == SpectrumMode::Spectrogram,
            ..quiet()
        }
    }

    pub open spec fn opened(self, input: BufferId, file: FileInfo) -> EditorModel {
        EditorModel {
            session: SessionModel::opened(input, MapModel::single(), 0, Normalize::off()),
            file: Some(file),
            trim: Trim::whole(file.duration),
            panels: Panels { spectrogram_in: false, spectrogram_out: false, ..self.panels },
            ..self
        }
    }

    /// What a project remembers of the work, with the part of the file on screen.
    pub open spec fn remembered(self, v: Viewport) -> ViewState {
        ViewState {
            zoom: v.zoom,
            scroll: v.scroll,
            selected_zone: match self.session.selected_zone {
                Some(i) => i,
                None => 0,
            },
            snap_enabled: self.panels.snap_enabled,
            normalize_enabled: self.session.normalize.enabled,
            normalize_mode: Some(self.session.normalize.mode),
            normalize_target_db: self.session.normalize.target_db,
            trim_start: self.trim.start,
            trim_end: self.trim.end,
        }
    }

    pub open spec fn project_opened(
        self,
        input: BufferId,
        file: FileInfo,
        zones: MapModel,
        view: ViewState,
    ) -> EditorModel {
        let map = zones.fitted(file.duration).ordered();
        EditorModel {
            session: SessionModel::opened(
                input,
                map,
                if view.selected_zone < map.zones.len() {
                    view.selected_zone
                } else {
                    (map.zones.len() - 1) as usize
                },
                Normalize {
                    enabled: view.normalize_enabled,
                    mode: match view.normalize_mode {
                        Some(mode) => mode,
                        None => self.session.normalize.mode,
                    },
                    target_db: view.normalize_target_db,
                },
            ),
            file: Some(file),
            trim: Trim::restored(view.trim_start, view.trim_end, file.duration),
            panels: Panels {
                spectrogram_in: false,
                spectrogram_out: false,
                snap_enabled: view.snap_enabled,
                ..self.panels
            },
            ..self
        }
    }
}

impl EditorModel {
    pub open spec fn split_at_cursor(self, t: Bits) -> (EditorModel, Effects) {
        match self.file {
            Some(f) => if less(0, t) && less(t, f.duration) {
                self.recording(self.session.zones.with_split(t)).rendering(Rebuild::Full, quiet())
            } else {
                (self, quiet())
            },
            None => (self, quiet()),
        }
    }

    pub open spec fn split_added(self, t: Bits) -> (EditorModel, Effects) {
        self.with_session(
            SessionModel { zones: self.session.zones.with_split(t), ..self.session },
        ).rendering(Rebuild::Full, quiet())
    }

    pub open spec fn split_moved(self, i: usize, t: Bits) -> (EditorModel, Effects) {
        self.with_session(
            SessionModel {
                zones: self.session.zones.with_moved(i as int, t, self.file->0.duration),
                ..self.session
            },
        ).rendering(Rebuild::Full, repaint())
    }

    pub open spec fn split_removed(self, i: usize) -> (EditorModel, Effects) {
        self.with_session(
            SessionModel {
                selected_split: None,
                zones: self.session.zones.without_split(i as int),
                ..self.session
            }.snapshotted(),
        ).rendering(Rebuild::Full, quiet())
    }

    /// From the zone menu, which closes.
    pub open spec fn split_deleted(self, i: usize) -> (EditorModel, Effects) {
        let closed = self.with_panels(Panels { zone_menu: None, ..self.panels });
        if i < self.session.zones.splits.len() {
            closed.split_removed(i)
        } else {
            (closed, quiet())
        }
    }

    pub open spec fn start_dragged(self, t: Bits) -> (EditorModel, Effects) {
        let d = self.file->0.duration;
        self.trimmed(
            EditorModel { trim: self.trim.with_start(t, d), ..self },
            moved(self.trim.start, self.trim.start_target(t, d)),
        )
    }

    pub open spec fn end_dragged(self, t: Bits) -> (EditorModel, Effects) {
        let d = self.file->0.duration;
        self.trimmed(
            EditorModel { trim: self.trim.with_end(t, d), ..self },
            moved(self.trim.end, self.trim.end_target(t, d)),
        )
    }

    pub open spec fn zone_edited(self, e: ZoneEdit) -> (EditorModel, Effects) {
        match self.current() {
            Some(i) => {
                let zones = self.session.zones.with_zone(i, edited(self.session.zones.zones[i], e));
                let next = if recorded_at_once(e) {
                    self.recording(zones)
                } else {
                    self.with_session(SessionModel { zones, ..self.session })
                };
                next.rendering(
                    rebuild_for(e, self.session.normalize.enabled),
                    Effects { peak: e is InputGain, ..quiet() },
                )
            },
            None => (self, quiet()),
        }
    }

    pub open spec fn dc_removed(self, mean: Bits) -> (EditorModel, Effects) {
        match self.current() {
            Some(i) => self.recording(
                self.session.zones.with_zone(
                    i,
                    edited(self.session.zones.zones[i], ZoneEdit::DcOffset(negated(mean))),
                ),
            ).rendering(Rebuild::Full, quiet()),
            None => (self, quiet()),
        }
    }

    pub open spec fn baked(self, post: BufferId) -> (EditorModel, Effects) {
        if self.session.input is Some {
            self.with_session(self.session.applied(post)).rendering(
                Rebuild::Full,
                Effects { peak: true, ..repaint() },
            )
        } else {
            (self, quiet())
        }
    }

    pub open spec fn stepped(self, forward: bool) -> (EditorModel, Effects) {
        let n = self.session.zones.zones.len();
        let cur = match self.session.selected_zone {
            Some(i) => i as int,
            None => 0,
        };
        let to = if forward {
            if cur + 1 < n {
                cur + 1
            } else {
                n - 1
            }
        } else if cur > 0 {
            cur - 1
        } else {
            0
        };
        (self.selecting(to as usize), Effects { peak: true, ..repaint() })
    }

    pub open spec fn result_received(self, gen: u64, preview: bool) -> (EditorModel, Effects) {
        let next = EditorModel { dsp: self.dsp.received(gen), ..self };
        match self.dsp.arrival(gen, preview, self.is_open()) {
            Arrival::Stale | Arrival::Unused => (next, quiet()),
            Arrival::Envelopes => (next, repaint()),
            Arrival::Sound => (
                next.with_panels(Panels { spectrogram_out: false, ..self.panels }),
                Effects {
                    line: LineAction::Renew,
                    spectrogram_out: self.panels.spectrum == SpectrumMode::Spectrogram,
                    ..repaint()
                },
            ),
        }
    }

    pub open spec fn undoing(self) -> (EditorModel, Effects) {
        if self.session.pos > 0 {
            self.with_session(self.session.undone()).rendering(
                Rebuild::Full,
                Effects { peak: true, ..repaint() },
            )
        } else {
            (self, quiet())
        }
    }

    pub open spec fn redoing(self) -> (EditorModel, Effects) {
        if self.session.pos + 1 < self.session.history.len() {
            self.with_session(self.session.redone()).rendering(
                Rebuild::Full,
                Effects { peak: true, ..repaint() },
            )
        } else {
            (self, quiet())
        }
    }

    pub open spec fn zone_copied(self) -> (EditorModel, Effects) {
        let closed = self.with_panels(Panels { zone_menu: None, ..self.panels });
        match self.current() {
            Some(i) => (
                EditorModel { clipboard: Some(self.session.zones.zones[i]), ..closed },
                Effects { note: Note::CopiedZone, ..quiet() },
            ),
            None => (closed, quiet()),
        }
    }

    pub open spec fn zone_pasted(self) -> (EditorModel, Effects) {
        let closed = self.with_panels(Panels { zone_menu: None, ..self.panels });
        match (self.clipboard, self.current()) {
            (Some(z), Some(i)) => closed.recording(self.session.zones.with_zone(i, z)).rendering(
                Rebuild::Full,
                quiet(),
            ),
            _ => (closed, quiet()),
        }
    }

    pub open spec fn preset_loaded(self, z: MapModel) -> (EditorModel, Effects) {
        let zones = match self.file {
            Some(f) => z.fitted(f.duration).ordered(),
            None => z.ordered(),
        };
        self.selecting(0).recording(zones).rendering(
            Rebuild::Full,
            Effects { peak: true, note: Note::PresetLoaded, ..repaint() },
        )
    }

    pub open spec fn sensitivity_set(self, v: Bits, preview: Seq<Bits>) -> (EditorModel, Effects) {
        match self.detection {
            Some(d) => (
                EditorModel {
                    detection: Some(
                        DetectionModel {
                            sensitivity: clamped(v, 0, crate::single::ONE),
                            preview: if self.is_open() {
                                preview
                            } else {
                                d.preview
                            },
                        },
                    ),
                    ..self
                },
                quiet(),
            ),
            None => (self, quiet()),
        }
    }

    /// The proposed splits replace all splits, and every zone is plain.
    pub open spec fn splits_replaced(self) -> (EditorModel, Effects) {
        match self.detection {
            Some(d) => {
                let zones = MapModel {
                    splits: d.preview,
                    zones: Seq::new(d.preview.len() + 1, |i: int| plain_zone()),
                };
                (EditorModel { detection: None, ..self }).selecting(0).recording(zones).rendering(
                    Rebuild::Full,
                    Effects { note: Note::AutoDetected(d.preview.len() as usize), ..repaint() },
                )
            },
            None => (self, quiet()),
        }
    }

    /// The proposed splits join the others.
    pub open spec fn splits_added(self) -> (EditorModel, Effects) {
        match self.detection {
            Some(d) => {
                let zones = with_all(self.session.zones, d.preview);
                (EditorModel { detection: None, ..self }).recording(zones).rendering(
                    Rebuild::Full,
                    Effects {
                        note: Note::AddedSplits(
                            (zones.splits.len() - self.session.zones.splits.len()) as usize,
                        ),
                        ..repaint()
                    },
                )
            },
            None => (self, quiet()),
        }
    }
}

/// Does a command come from the file menu, and so close it?
pub open spec fn closes_menu(msg: Msg) -> bool {
    msg is Undo || msg is Redo || msg is AddSplitAtCursor || msg is OpenAutoDetect
}

/// The inputs on which a command is defined: times are numbers inside the file,
/// and split numbers exist.
pub open spec fn accepts(m: EditorModel, msg: Msg) -> bool {
    match msg {
        Msg::Opened { file, .. } => file.duration < INFINITY,
        Msg::ProjectOpened { file, view, .. } => {
            &&& file.duration < INFINITY
            &&& view.trim_start matches Some(a) ==> !is_nan(a)
            &&& view.trim_end matches Some(b) ==> !is_nan(b)
        },
        Msg::AddSplitAtCursor(t) => t < INFINITY,
        Msg::AddSplit(t) => t < INFINITY && (m.file matches Some(f) ==> t <= f.duration),
        Msg::MoveSplit(i, t) => {
            &&& m.file is Some
            &&& i < m.session.zones.splits.len()
            &&& t < INFINITY
            &&& at_most(
                m.session.zones.move_floor(i as int),
                m.session.zones.move_ceiling(i as int, m.file->0.duration),
            )
        },
        Msg::MoveTrimStart(t) => m.file is Some && !is_nan(t),
        Msg::MoveTrimEnd(t) => m.file is Some && !is_nan(t),
        Msg::OpenAutoDetect(p) => in_order(p@),
        Msg::SetDetectSensitivity(_, p) => in_order(p@),
        Msg::ApplyAutoDetectReplace | Msg::ApplyAutoDetectAdd => {
            m.file is Some && m.detection is Some ==> within(m.detection->0.preview, m.file->0.duration)
        },
        _ => true,
    }
}

/// The state and the effects after a command.
pub open spec fn step(before: EditorModel, msg: Msg) -> (EditorModel, Effects) {
    let m = if closes_menu(msg) {
        before.with_panels(before.panels.menu_closed())
    } else {
        before
    };
    let s = m.session;
    let p = m.panels;
    let n = s.zones.zones.len();
    match msg {
        Msg::Panel(pm) => {
            let (panels, e) = p.after(pm);
            (m.with_panels(panels), e)
        },
        Msg::Opened { input, file } => (m.opened(input, file), m.opening_effects(true)),
        Msg::ProjectOpened { input, file, zones, view } => (
            m.project_opened(input, file, zones@, view),
            m.opening_effects(false),
        ),
        Msg::AddSplitAtCursor(t) => m.split_at_cursor(t),
        Msg::AddSplit(t) => m.split_added(t),
        Msg::SelectSplit(i) => (
            m.with_session(SessionModel { selected_split: Some(i), ..s.snapshotted() }),
            repaint(),
        ),
        Msg::SelectZone(i) => (m.selecting(i), repaint()),
        Msg::Seek(t) => (
            m.selecting(zone_of(s.zones.splits, t) as usize),
            Effects { overlay: true, line: LineAction::Refresh, ..repaint() },
        ),
        Msg::MoveSplit(i, t) => m.split_moved(i, t),
        Msg::MoveTrimStart(t) => m.start_dragged(t),
        Msg::MoveTrimEnd(t) => m.end_dragged(t),
        Msg::ZoneContextMenu(menu) => (
            EditorModel {
                session: SessionModel { selected_zone: Some(menu.zone), ..s },
                panels: Panels { zone_menu: Some(menu), ..p },
                ..m
            },
            repaint(),
        ),
        Msg::DeleteSelectedSplit => match s.selected_split {
            Some(i) => m.split_removed(i),
            None => (m, quiet()),
        },
        Msg::DeleteSplitAt(i) => m.split_deleted(i),
        Msg::Edit(e) => m.zone_edited(e),
        Msg::DcMeasured(mean) => m.dc_removed(mean),
        Msg::ApplyProcessing(post) => m.baked(post),
        Msg::PrevZone => m.stepped(false),
        Msg::NextZone => m.stepped(true),
        Msg::SelectZoneIdx(i) => if i < n {
            (m.selecting(i), Effects { peak: true, ..repaint() })
        } else {
            (m, quiet())
        },
        Msg::DspDone { gen, preview } => m.result_received(gen, preview),
        Msg::Undo => m.undoing(),
        Msg::Redo => m.redoing(),
        Msg::Commit => m.with_session(s.snapshotted()).rendering(Rebuild::Full, quiet()),
        Msg::CopyZoneParams => m.zone_copied(),
        Msg::PasteZoneParams => m.zone_pasted(),
        Msg::SetNormalizeState(state) => m.with_session(
            SessionModel { normalize: s.normalize.with_state(state), ..s },
        ).rendering(Rebuild::Full, quiet()),
        Msg::SetNormalizeTarget(db) => m.with_session(
            SessionModel { normalize: s.normalize.with_target(db), ..s },
        ).rendering(
            if s.normalize.enabled {
                Rebuild::Full
            } else {
                Rebuild::Skip
            },
            quiet(),
        ),
        Msg::PresetLoaded(z) => m.preset_loaded(z@),
        Msg::OpenAutoDetect(preview) => if m.is_open() {
            (
                EditorModel {
                    detection: Some(
                        DetectionModel { sensitivity: DETECT_START, preview: preview@ },
                    ),
                    ..m
                },
                quiet(),
            )
        } else {
            (m, Effects { note: Note::LoadFirst, ..quiet() })
        },
        Msg::CloseAutoDetect => (EditorModel { detection: None, ..m }, quiet()),
        Msg::SetDetectSensitivity(v, preview) => m.sensitivity_set(v, preview@),
        Msg::ApplyAutoDetectReplace => m.splits_replaced(),
        Msg::ApplyAutoDetectAdd => m.splits_added(),
    }
}

impl EditorModel {
    /// After a trim handle was dragged: normalisation and fades depend on the
    /// trim, so the sound changes with it.
    pub open spec fn trimmed(self, next: EditorModel, changed: bool) -> (EditorModel, Effects) {
        if !changed {
            (next, quiet())
        } else {
            next.rendering(
                if self.session.normalize.enabled || self.any_fade() {
                    Rebuild::Full
                } else {
                    Rebuild::Skip
                },
                repaint(),
            )
        }
    }

    pub open spec fn any_fade(self) -> bool {
        exists|i: int|
            0 <= i < self.session.zones.zones.len() && fades(#[trigger] self.session.zones.zones[i])
    }
}

// ---- Keeping splits inside the file -----------------------------------------

proof fn lemma_snapshot_within(s: SessionModel, d: Bits)
    requires
        s.wf(),
        session_within(s, d),
    ensures
        session_within(s.snapshotted(), d),
{
    if s.changed() {
        let h = s.history.take(s.pos + 1).push(EntryModel::Params { map: s.zones });
        let f = s.snapshotted().history;
        let k = h.len() - f.len();
        assert forall|i: int| 0 <= i < f.len() implies entry_within(#[trigger] f[i], d) by {
            assert(f[i] == h[i + k]);
            if i + k < s.pos + 1 {
                assert(h[i + k] == s.history[i + k]);
            }
        }
    }
}

proof fn lemma_apply_within(s: SessionModel, post: BufferId, d: Bits)
    requires
        s.wf(),
        session_within(s, d),
    ensures
        session_within(s.applied(post), d),
{
    if s.input is Some {
        lemma_apply_wf(s, post);
        let h = s.history.take(s.pos + 1).push(s.apply_entry(post));
        let f = s.applied_history(post);
        let k = h.len() - f.len();
        crate::session::lemma_first_apply(h);
        assert forall|i: int| 0 <= i < f.len() implies entry_within(#[trigger] f[i], d) by {
            assert(f[i] == h[i + k]);
            if i + k < s.pos + 1 {
                assert(h[i + k] == s.history[i + k]);
            }
        }
    }
}

proof fn lemma_move_within(s: SessionModel, pos: int, d: Bits)
    requires
        s.wf(),
        session_within(s, d),
        0 <= pos < s.history.len(),
    ensures
        session_within(s.moved_to(pos), d),
{
    assert(entry_within(s.history[pos], d));
}

proof fn lemma_add_within(m: MapModel, t: Bits, d: Bits)
    requires
        m.wf(),
        within(m.splits, d),
        t < INFINITY,
        t <= d,
    ensures
        within(m.with_split(t).splits, d),
{
    crate::zones::lemma_with_split_wf(m, t);
    let w = m.with_split(t).splits;
    assert forall|i: int| 0 <= i < w.len() implies #[trigger] w[i] <= d by {
        if w[i] != t {
            let j = choose|j: int| 0 <= j < m.splits.len() && m.splits[j] == w[i];
            assert(m.splits[j] <= d);
        }
    }
}

proof fn lemma_inside_within(s: Seq<Bits>, d: Bits)
    requires
        d < INFINITY,
        forall|i: int| 0 <= i < s.len() ==> less(0, #[trigger] s[i]) && less(s[i], d),
    ensures
        within(s, d),
{
    assert forall|i: int| 0 <= i < s.len() implies #[trigger] s[i] <= d by {
        lemma_zero(0);
        lemma_zero(s[i]);
        lemma_pattern_order(s[i], d);
    }
}

// ---- Commands ---------------------------------------------------------------

/// Applies one edit to the parameters of a zone.
pub fn edit_zone(z: &ZoneParams, e: ZoneEdit) -> (r: ZoneParams)
    ensures
        r == edited(*z, e),
{
    let mut r: ZoneParams = *z;
    proof {
        lemma_control_ranges();
    }
    match e {
        ZoneEdit::Ceiling(db) => {
            r.ceiling_db = db;
        },
        ZoneEdit::InputGain(db) => {
            r.input_gain_db = db;
        },
        ZoneEdit::OutputGain(db) => {
            r.output_gain_db = db;
        },
        ZoneEdit::DcOffset(v) => {
            r.dc_offset = clamp(v, 0xbf00_0000, 0x3f00_0000);
        },
        ZoneEdit::Clipper(c) => {
            r.clipper = c;
        },
        ZoneEdit::FadeIn(s) => {
            r.fade_in_secs = at_least_zero(s);
        },
        ZoneEdit::FadeOut(s) => {
            r.fade_out_secs = at_least_zero(s);
        },
        ZoneEdit::ToggleDcBlocker => {
            r.dc_blocker_enabled = !r.dc_blocker_enabled;
        },
        ZoneEdit::DcBlockerHz(hz) => {
            r.dc_blocker_hz = clamp(hz, 0x40a0_0000, 0x4270_0000);
        },
        ZoneEdit::Oversampling(n) => {
            r.oversampling = if n < 2 {
                1
            } else if n < 4 {
                2
            } else if n < 8 {
                4
            } else {
                8
            };
        },
    }
    r
}

proof fn lemma_control_ranges()
    ensures
        at_most(0xbf00_0000, 0x3f00_0000),
        at_most(0x40a0_0000, 0x4270_0000),
        at_most(0, crate::single::ONE),
{
    lemma_pattern_order(0x40a0_0000, 0x4270_0000);
    lemma_pattern_order(0, crate::single::ONE);
    lemma_zero(0);
    assert(unsigned(0xbf00_0000) == 0x3f00_0000);
}

impl Editor {
    pub open spec fn wf(&self) -> bool {
        self@.wf()
    }

    /// An editor without a file.
    pub fn new() -> (ed: Editor)
        ensures
            ed.wf(),
            ed@ == (EditorModel {
                session: SessionModel {
                    input: None,
                    ..SessionModel::opened(0, MapModel::single(), 0, Normalize::off())
                },
                file: None,
                trim: (Trim { start: None, end: None }),
                panels: Panels::initial(),
                clipboard: None,
                detection: None,
                dsp: (DspQueue { gen: 0, pending: false }),
            }),
    {
        Editor {
            session: Session::new(),
            file: None,
            trim: Trim { start: None, end: None },
            panels: Panels::new(),
            clipboard: None,
            detection: None,
            dsp: DspQueue::new(),
        }
    }

    fn request(&mut self, r: Rebuild, e: Effects) -> (out: Effects)
        ensures
            (final(self)@, out) == old(self)@.rendering(r, e),
    {
        let open: bool = self.file.is_some();
        let _job: Option<u64> = self.dsp.request(r, open);
        Effects {
            rebuild: if open {
                r
            } else {
                Rebuild::Skip
            },
            ..e
        }
    }

    /// Records the current zones and asks for a full rendering.
    fn record(&mut self, e: Effects) -> (out: Effects)
        requires
            old(self).wf(),
        ensures
            final(self).wf(),
            (final(self)@, out) == old(self)@.with_session(old(self)@.session.snapshotted()).rendering(
                Rebuild::Full,
                e,
            ),
    {
        proof {
            lemma_snapshot_wf(self@.session);
            if self.file is Some {
                lemma_snapshot_within(self@.session, self.file->0.duration);
            }
        }
        self.session.snapshot();
        self.request(Rebuild::Full, e)
    }

    fn open_file(&mut self, input: BufferId, file: FileInfo) -> (out: Effects)
        requires
            old(self).wf(),
            file.duration < INFINITY,
        ensures
            final(self).wf(),
            final(self)@ == old(self)@.opened(input, file),
            out == old(self)@.opening_effects(true),
    {
        let shown: bool = self.panels.spectrum == SpectrumMode::Spectrogram;
        self.session.open(input, ZoneMap::new(), 0, Normalize::new());
        self.file = Some(file);
        self.trim = Trim::at_edges(file.duration);
        self.panels.spectrogram_in = false;
        self.panels.spectrogram_out = false;
        Effects {
            overlay: true,
            peak: true,
            line: LineAction::Drop,
            spectrogram_in: shown,
            spectrogram_out: shown,
            ..repaint_effects()
        }
    }

    fn open_project(
        &mut self,
        input: BufferId,
        file: FileInfo,
        zones: ZoneMap,
        view: ViewState,
    ) -> (out: Effects)
        requires
            old(self).wf(),
            file.duration < INFINITY,
            view.trim_start matches Some(a) ==> !is_nan(a),
            view.trim_end matches Some(b) ==> !is_nan(b),
        ensures
            final(self).wf(),
            final(self)@ == old(self)@.project_opened(input, file, zones@, view),
            out == old(self)@.opening_effects(false),
    {
        let mut map: ZoneMap = zones;
        map.fit_to(file.duration);
        proof {
            lemma_inside_within(map.splits@, file.duration);
        }
        map.put_in_order();
        let n: usize = map.zones.len();
        let chosen: usize = if view.selected_zone < n {
            view.selected_zone
        } else {
            n - 1
        };
        let normalize = Normalize {
            enabled: view.normalize_enabled,
            mode: match view.normalize_mode {
                Some(mode) => mode,
                None => self.session.normalize.mode,
            },
            target_db: view.normalize_target_db,
        };
        self.session.open(input, map, chosen, normalize);
        self.file = Some(file);
        self.trim = Trim::restore(view.trim_start, view.trim_end, file.duration);
        self.panels.spectrogram_in = false;
        self.panels.spectrogram_out = false;
        self.panels.snap_enabled = view.snap_enabled;
        Effects { overlay: true, peak: true, line: LineAction::Drop, ..repaint_effects() }
    }

    fn add_split_at_cursor(&mut self, t: Bits) -> (out: Effects)
        requires
            old(self).wf(),
            t < INFINITY,
        ensures
            final(self).wf(),
            (final(self)@, out) == old(self)@.split_at_cursor(t),
    {
        match self.file {
            Some(f) => {
                if less_than(0, t) && less_than(t, f.duration) {
                    proof {
                        lemma_pattern_order(t, f.duration);
                        lemma_add_within(self@.session.zones, t, f.duration);
                    }
                    self.session.zones.add_split(t);
                    self.record(quiet_effects())
                } else {
                    quiet_effects()
                }
            },
            None => quiet_effects(),
        }
    }

    fn remove_split(&mut self, i: usize) -> (out: Effects)
        requires
            old(self).wf(),
        ensures
            final(self).wf(),
            (final(self)@, out) == old(self)@.split_removed(i),
    {
        let ghost before = self@.session.zones;
        self.session.selected_split = None;
        self.session.zones.remove_split(i);
        proof {
            if self.file is Some {
                let d = self.file->0.duration;
                let w = before.without_split(i as int).splits;
                assert forall|k: int| 0 <= k < w.len() implies #[trigger] w[k] <= d by {
                    if i < before.splits.len() {
                        assert(w[k] == before.splits[if k < i {
                            k
                        } else {
                            k + 1
                        }]);
                    } else {
                        assert(w[k] == before.splits[k]);
                    }
                }
            }
        }
        self.record(quiet_effects())
    }

    fn current_zone(&self) -> (r: Option<usize>)
        ensures
            match r {
                Some(i) => self@.current() == Some(i as int) && i < self.session.zones.zones@.len(),
                None => self@.current() is None,
            },
    {
        match self.session.selected_zone {
            Some(i) => if i < self.session.zones.zones.len() {
                Some(i)
            } else {
                None
            },
            None => None,
        }
    }

    /// Replaces the parameters of zone `i`.
    fn put_zone(&mut self, i: usize, z: ZoneParams)
        requires
            old(self).wf(),
            i < old(self).session.zones.zones@.len(),
        ensures
            final(self).wf(),
            final(self)@ == old(self)@.with_session(
                (SessionModel {
                    zones: old(self)@.session.zones.with_zone(i as int, z),
                    ..old(self)@.session
                }),
            ),
    {
        self.session.zones.zones.set(i, z);
        proof {
            assert(self@ =~= old(self)@.with_session(
                (SessionModel {
                    zones: old(self)@.session.zones.with_zone(i as int, z),
                    ..old(self)@.session
                }),
            ));
        }
    }

    fn edit(&mut self, e: ZoneEdit) -> (out: Effects)
        requires
            old(self).wf(),
        ensures
            final(self).wf(),
            (final(self)@, out) == old(self)@.zone_edited(e),
    {
        let i: usize = match self.current_zone() {
            None => {
                return quiet_effects();
            },
            Some(i) => i,
        };
        let z: ZoneParams = edit_zone(&self.session.zones.zones[i], e);
        self.put_zone(i, z);
        let normalized: bool = self.session.normalize.enabled;
        let (at_once, r, peak): (bool, Rebuild, bool) = match e {
            ZoneEdit::Ceiling(_) | ZoneEdit::OutputGain(_) => (
                false,
                if normalized {
                    Rebuild::Full
                } else {
                    Rebuild::Preview
                },
                false,
            ),
            ZoneEdit::InputGain(_) => (
                false,
                if normalized {
                    Rebuild::Full
                } else {
                    Rebuild::Preview
                },
                true,
            ),
            ZoneEdit::Clipper(_) | ZoneEdit::ToggleDcBlocker => (true, Rebuild::Full, false),
            ZoneEdit::Oversampling(_) => (true, Rebuild::Skip, false),
            _ => (false, Rebuild::Full, false),
        };
        if at_once {
            proof {
                lemma_snapshot_wf(self@.session);
                if self.file is Some {
                    lemma_snapshot_within(self@.session, self.file->0.duration);
                }
            }
            self.session.snapshot();
        }
        self.request(r, Effects { peak, ..quiet_effects() })
    }

    fn set_dc(&mut self, mean: Bits) -> (out: Effects)
        requires
            old(self).wf(),
        ensures
            final(self).wf(),
            (final(self)@, out) == old(self)@.dc_removed(mean),
    {
        let i: usize = match self.current_zone() {
            None => {
                return quiet_effects();
            },
            Some(i) => i,
        };
        let z: ZoneParams = edit_zone(&self.session.zones.zones[i], ZoneEdit::DcOffset(neg(mean)));
        self.put_zone(i, z);
        self.record(quiet_effects())
    }

    fn apply_processing(&mut self, post: BufferId) -> (out: Effects)
        requires
            old(self).wf(),
        ensures
            final(self).wf(),
            (final(self)@, out) == old(self)@.baked(post),
    {
        if self.session.input.is_none() {
            return quiet_effects();
        }
        proof {
            lemma_apply_wf(self@.session, post);
            if self.file is Some {
                lemma_apply_within(self@.session, post, self.file->0.duration);
            }
        }
        self.session.apply(post);
        self.request(Rebuild::Full, Effects { peak: true, ..repaint_effects() })
    }

    fn undo(&mut self) -> (out: Effects)
        requires
            old(self).wf(),
        ensures
            final(self).wf(),
            (final(self)@, out) == old(self)@.undoing(),
    {
        let ghost s = self@.session;
        if self.session.undo() {
            proof {
                if self.file is Some {
                    lemma_move_within(s, s.pos - 1, self.file->0.duration);
                }
            }
            self.request(Rebuild::Full, Effects { peak: true, ..repaint_effects() })
        } else {
            quiet_effects()
        }
    }

    fn redo(&mut self) -> (out: Effects)
        requires
            old(self).wf(),
        ensures
            final(self).wf(),
            (final(self)@, out) == old(self)@.redoing(),
    {
        let ghost s = self@.session;
        if self.session.redo() {
            proof {
                if self.file is Some {
                    lemma_move_within(s, s.pos + 1, self.file->0.duration);
                }
            }
            self.request(Rebuild::Full, Effects { peak: true, ..repaint_effects() })
        } else {
            quiet_effects()
        }
    }
}

impl Editor {
    fn add_split(&mut self, t: Bits) -> (out: Effects)
        requires
            old(self).wf(),
            t < INFINITY,
            old(self).file matches Some(f) ==> t <= f.duration,
        ensures
            final(self).wf(),
            (final(self)@, out) == old(self)@.split_added(t),
    {
        proof {
            if self.file is Some {
                lemma_add_within(self@.session.zones, t, self.file->0.duration);
            }
        }
        self.session.zones.add_split(t);
        self.request(Rebuild::Full, quiet_effects())
    }

    fn move_split(&mut self, i: usize, t: Bits) -> (out: Effects)
        requires
            old(self).wf(),
            accepts(old(self)@, Msg::MoveSplit(i, t)),
        ensures
            final(self).wf(),
            (final(self)@, out) == old(self)@.split_moved(i, t),
    {
        let duration: Bits = match self.file {
            Some(f) => f.duration,
            None => 0,
        };
        let ghost before = self@.session.zones.splits;
        self.session.zones.move_split(i, t, duration);
        proof {
            let w = self@.session.zones.splits;
            assert forall|k: int| 0 <= k < w.len() implies #[trigger] w[k] <= duration by {
                assert(w[k] <= w[w.len() - 1]);
            }
        }
        self.request(Rebuild::Full, repaint_effects())
    }

    fn seek(&mut self, t: Bits) -> (out: Effects)
        requires
            old(self).wf(),
        ensures
            final(self).wf(),
            final(self)@ == old(self)@.selecting(
                zone_of(old(self)@.session.zones.splits, t) as usize,
            ),
            out == (Effects { overlay: true, line: LineAction::Refresh, ..repaint() }),
    {
        let z: usize = self.session.zones.zone_at(t);
        self.session.selected_zone = Some(z);
        self.session.selected_split = None;
        Effects { overlay: true, line: LineAction::Refresh, ..repaint_effects() }
    }

    fn move_trim(&mut self, t: Bits, at_start: bool) -> (out: Effects)
        requires
            old(self).wf(),
            old(self).file is Some,
            !is_nan(t),
        ensures
            final(self).wf(),
            (final(self)@, out) == (if at_start {
                old(self)@.start_dragged(t)
            } else {
                old(self)@.end_dragged(t)
            }),
    {
        let duration: Bits = match self.file {
            Some(f) => f.duration,
            None => 0,
        };
        let changed: bool = if at_start {
            self.trim.move_start(t, duration)
        } else {
            self.trim.move_end(t, duration)
        };
        if !changed {
            return quiet_effects();
        }
        let sounds: bool = self.session.normalize.enabled || self.session.zones.any_fade_active();
        self.request(
            if sounds {
                Rebuild::Full
            } else {
                Rebuild::Skip
            },
            repaint_effects(),
        )
    }

    fn select(&mut self, zone: usize, e: Effects) -> (out: Effects)
        requires
            old(self).wf(),
        ensures
            final(self).wf(),
            final(self)@ == old(self)@.selecting(zone),
            out == e,
    {
        self.session.selected_zone = Some(zone);
        self.session.selected_split = None;
        e
    }

    fn step_zone(&mut self, forward: bool) -> (out: Effects)
        requires
            old(self).wf(),
        ensures
            final(self).wf(),
            (final(self)@, out) == old(self)@.stepped(forward),
    {
        let n: usize = self.session.zones.zones.len();
        let cur: usize = match self.session.selected_zone {
            Some(i) => i,
            None => 0,
        };
        let to: usize = if forward {
            if cur < n - 1 {
                cur + 1
            } else {
                n - 1
            }
        } else if cur > 0 {
            cur - 1
        } else {
            0
        };
        self.select(to, Effects { peak: true, ..repaint_effects() })
    }

    fn receive(&mut self, gen: u64, preview: bool) -> (out: Effects)
        requires
            old(self).wf(),
        ensures
            final(self).wf(),
            (final(self)@, out) == old(self)@.result_received(gen, preview),
    {
        let open: bool = self.file.is_some();
        match self.dsp.receive(gen, preview, open) {
            Arrival::Stale => quiet_effects(),
            Arrival::Unused => quiet_effects(),
            Arrival::Envelopes => repaint_effects(),
            Arrival::Sound => {
                self.panels.spectrogram_out = false;
                Effects {
                    line: LineAction::Renew,
                    spectrogram_out: self.panels.spectrum == SpectrumMode::Spectrogram,
                    ..repaint_effects()
                }
            },
        }
    }

    fn copy_zone(&mut self) -> (out: Effects)
        requires
            old(self).wf(),
        ensures
            final(self).wf(),
            (final(self)@, out) == old(self)@.zone_copied(),
    {
        self.panels.zone_menu = None;
        match self.current_zone() {
            Some(i) => {
                self.clipboard = Some(self.session.zones.zones[i]);
                Effects { note: Note::CopiedZone, ..quiet_effects() }
            },
            None => quiet_effects(),
        }
    }

    fn paste_zone(&mut self) -> (out: Effects)
        requires
            old(self).wf(),
        ensures
            final(self).wf(),
            (final(self)@, out) == old(self)@.zone_pasted(),
    {
        self.panels.zone_menu = None;
        let i: usize = match self.current_zone() {
            None => {
                return quiet_effects();
            },
            Some(i) => i,
        };
        match self.clipboard {
            Some(z) => {
                self.put_zone(i, z);
                self.record(quiet_effects())
            },
            None => quiet_effects(),
        }
    }

    fn delete_split_at(&mut self, i: usize) -> (out: Effects)
        requires
            old(self).wf(),
        ensures
            final(self).wf(),
            (final(self)@, out) == old(self)@.split_deleted(i),
    {
        self.panels.zone_menu = None;
        if i < self.session.zones.splits.len() {
            self.remove_split(i)
        } else {
            quiet_effects()
        }
    }

    fn load_preset(&mut self, z: ZoneMap) -> (out: Effects)
        requires
            old(self).wf(),
        ensures
            final(self).wf(),
            (final(self)@, out) == old(self)@.preset_loaded(z@),
    {
        let mut map: ZoneMap = z;
        match self.file {
            Some(f) => {
                map.fit_to(f.duration);
                proof {
                    lemma_inside_within(map.splits@, f.duration);
                }
            },
            None => {},
        }
        map.put_in_order();
        self.session.zones = map;
        self.session.selected_zone = Some(0);
        self.session.selected_split = None;
        self.record(Effects { peak: true, note: Note::PresetLoaded, ..repaint_effects() })
    }

    fn set_sensitivity(&mut self, v: Bits, preview: Vec<Bits>) -> (out: Effects)
        requires
            old(self).wf(),
            in_order(preview@),
        ensures
            final(self).wf(),
            (final(self)@, out) == old(self)@.sensitivity_set(v, preview@),
    {
        proof {
            lemma_control_ranges();
        }
        let open: bool = self.file.is_some();
        let found: Option<Detection> = self.detection.take();
        self.detection = match found {
            Some(d) => Some(
                Detection {
                    sensitivity: clamp(v, 0, crate::single::ONE),
                    preview: if open {
                        preview
                    } else {
                        d.preview
                    },
                },
            ),
            None => None,
        };
        quiet_effects()
    }

    fn replace_splits(&mut self) -> (out: Effects)
        requires
            old(self).wf(),
            accepts(old(self)@, Msg::ApplyAutoDetectReplace),
        ensures
            final(self).wf(),
            (final(self)@, out) == old(self)@.splits_replaced(),
    {
        let found: Option<Detection> = self.detection.take();
        match found {
            None => quiet_effects(),
            Some(d) => {
                let n: usize = d.preview.len();
                let mut zones: Vec<ZoneParams> = Vec::new();
                zones.push(ZoneParams::default());
                let mut i: usize = 0;
                while i < n
                    invariant
                        i <= n,
                        zones@.len() == i + 1,
                        forall|k: int| 0 <= k < zones@.len() ==> #[trigger] zones@[k] == plain_zone(),
                    decreases n - i,
                {
                    zones.push(ZoneParams::default());
                    i = i + 1;
                }
                proof {
                    assert(zones@ =~= Seq::new(d.preview@.len() + 1, |i: int| plain_zone()));
                }
                self.session.zones = ZoneMap { splits: d.preview, zones };
                self.session.selected_zone = Some(0);
                self.session.selected_split = None;
                self.record(Effects { note: Note::AutoDetected(n), ..repaint_effects() })
            },
        }
    }

    fn add_splits(&mut self) -> (out: Effects)
        requires
            old(self).wf(),
            accepts(old(self)@, Msg::ApplyAutoDetectAdd),
        ensures
            final(self).wf(),
            (final(self)@, out) == old(self)@.splits_added(),
    {
        let found: Option<Detection> = self.detection.take();
        match found {
            None => quiet_effects(),
            Some(d) => {
                let ghost m0 = self@;
                let ghost zones0 = self@.session.zones;
                let before: usize = self.session.zones.splits.len();
                let mut i: usize = 0;
                proof {
                    assert(d.preview@.take(0) =~= Seq::empty());
                }
                while i < d.preview.len()
                    invariant
                        i <= d.preview@.len(),
                        in_order(d.preview@),
                        self.session.zones@ == with_all(zones0, d.preview@.take(i as int)),
                        self.session.zones.wf(),
                        zones0.splits.len() == before <= self.session.zones.splits@.len(),
                        m0.file matches Some(f) ==> within(d.preview@, f.duration) && within(
                            self.session.zones.splits@,
                            f.duration,
                        ),
                        self@ == m0.with_session(
                            (SessionModel { zones: self.session.zones@, ..m0.session }),
                        ),
                    decreases d.preview@.len() - i,
                {
                    let t: Bits = d.preview[i];
                    proof {
                        let tk = d.preview@.take(i + 1);
                        assert(tk.drop_last() =~= d.preview@.take(i as int));
                        assert(tk.last() == t);
                        crate::zones::lemma_with_split_wf(self.session.zones@, t);
                        if m0.file is Some {
                            lemma_add_within(self.session.zones@, t, m0.file->0.duration);
                        }
                    }
                    self.session.zones.add_split(t);
                    i = i + 1;
                }
                proof {
                    assert(d.preview@.take(d.preview@.len() as int) =~= d.preview@);
                }
                let added: usize = self.session.zones.splits.len() - before;
                self.record(Effects { note: Note::AddedSplits(added), ..repaint_effects() })
            },
        }
    }

    fn close_menu(&mut self)
        requires
            old(self).wf(),
        ensures
            final(self).wf(),
            final(self)@ == old(self)@.with_panels(old(self)@.panels.menu_closed()),
    {
        self.panels.file_menu_open = false;
    }

    fn select_split(&mut self, i: usize) -> (out: Effects)
        requires
            old(self).wf(),
        ensures
            final(self).wf(),
            (final(self)@, out) == step(old(self)@, Msg::SelectSplit(i)),
    {
        proof {
            lemma_snapshot_wf(self@.session);
            if self.file is Some {
                lemma_snapshot_within(self@.session, self.file->0.duration);
            }
        }
        self.session.snapshot();
        self.session.selected_split = Some(i);
        repaint_effects()
    }

    fn open_zone_menu(&mut self, menu: ZoneMenu) -> (out: Effects)
        requires
            old(self).wf(),
        ensures
            final(self).wf(),
            (final(self)@, out) == step(old(self)@, Msg::ZoneContextMenu(menu)),
    {
        self.session.selected_zone = Some(menu.zone);
        self.panels.zone_menu = Some(menu);
        repaint_effects()
    }

    fn set_normalize_state(&mut self, state: NormalizeState) -> (out: Effects)
        requires
            old(self).wf(),
        ensures
            final(self).wf(),
            (final(self)@, out) == step(old(self)@, Msg::SetNormalizeState(state)),
    {
        self.session.normalize.set_state(state);
        self.request(Rebuild::Full, quiet_effects())
    }

    fn set_normalize_target(&mut self, db: Bits) -> (out: Effects)
        requires
            old(self).wf(),
        ensures
            final(self).wf(),
            (final(self)@, out) == step(old(self)@, Msg::SetNormalizeTarget(db)),
    {
        self.session.normalize.set_target(db);
        let r: Rebuild = if self.session.normalize.enabled {
            Rebuild::Full
        } else {
            Rebuild::Skip
        };
        self.request(r, quiet_effects())
    }

    fn open_detection(&mut self, preview: Vec<Bits>) -> (out: Effects)
        requires
            old(self).wf(),
            in_order(preview@),
        ensures
            final(self).wf(),
            (final(self)@, out) == step(old(self)@, Msg::OpenAutoDetect(preview)),
    {
        self.close_menu();
        if self.file.is_some() {
            self.detection = Some(Detection { sensitivity: DETECT_START, preview });
            quiet_effects()
        } else {
            Effects { note: Note::LoadFirst, ..quiet_effects() }
        }
    }

    fn close_detection(&mut self) -> (out: Effects)
        requires
            old(self).wf(),
        ensures
            final(self).wf(),
            (final(self)@, out) == step(old(self)@, Msg::CloseAutoDetect),
    {
        self.detection = None;
        quiet_effects()
    }

    fn select_index(&mut self, i: usize) -> (out: Effects)
        requires
            old(self).wf(),
        ensures
            final(self).wf(),
            (final(self)@, out) == step(old(self)@, Msg::SelectZoneIdx(i)),
    {
        if i < self.session.zones.zones.len() {
            self.select(i, Effects { peak: true, ..repaint_effects() })
        } else {
            quiet_effects()
        }
    }

    fn update_panels(&mut self, pm: PanelMsg) -> (out: Effects)
        requires
            old(self).wf(),
        ensures
            final(self).wf(),
            (final(self)@, out) == step(old(self)@, Msg::Panel(pm)),
    {
        self.panels.update(pm)
    }

    fn can_move_split(&self, i: usize, t: Bits) -> (r: bool)
        requires
            self.wf(),
        ensures
            r == accepts(self@, Msg::MoveSplit(i, t)),
    {
        match self.file {
            None => false,
            Some(f) => {
                if i >= self.session.zones.splits.len() || t >= INFINITY {
                    false
                } else {
                    self.session.zones.can_move(i, f.duration)
                }
            },
        }
    }

    /// Is the command defined, as it stands?
    pub fn can_update(&self, msg: &Msg) -> (r: bool)
        requires
            self.wf(),
        ensures
            r == accepts(self@, *msg),
    {
        match msg {
            Msg::Opened { file, .. } => file.duration < INFINITY,
            Msg::ProjectOpened { file, view, .. } => {
                file.duration < INFINITY && is_number(view.trim_start) && is_number(view.trim_end)
            },
            Msg::AddSplitAtCursor(t) => *t < INFINITY,
            Msg::AddSplit(t) => *t < INFINITY && match self.file {
                Some(f) => *t <= f.duration,
                None => true,
            },
            Msg::MoveSplit(i, t) => self.can_move_split(*i, *t),
            Msg::MoveTrimStart(t) => self.file.is_some() && !not_a_number(*t),
            Msg::MoveTrimEnd(t) => self.file.is_some() && !not_a_number(*t),
            Msg::OpenAutoDetect(p) => are_in_order(p),
            Msg::SetDetectSensitivity(_, p) => are_in_order(p),
            Msg::ApplyAutoDetectReplace | Msg::ApplyAutoDetectAdd => match (&self.file, &self.detection) {
                (Some(f), Some(d)) => is_within(&d.preview, f.duration),
                _ => true,
            },
            _ => true,
        }
    }

    /// Carries out a command.
    pub fn update(&mut self, msg: Msg) -> (out: Effects)
        requires
            old(self).wf(),
            accepts(old(self)@, msg),
        ensures
            final(self).wf(),
            (final(self)@, out) == step(old(self)@, msg),
    {
        match msg {
            Msg::Panel(pm) => {
                return self.update_panels(pm);
            },
            Msg::Opened { input, file } => {
                return self.open_file(input, file);
            },
            Msg::ProjectOpened { input, file, zones, view } => {
                return self.open_project(input, file, zones, view);
            },
            Msg::AddSplitAtCursor(t) => {
                self.close_menu();
                return self.add_split_at_cursor(t);
            },
            Msg::AddSplit(t) => {
                return self.add_split(t);
            },
            Msg::SelectSplit(i) => {
                return self.select_split(i);
            },
            Msg::SelectZone(i) => {
                return self.select(i, repaint_effects());
            },
            Msg::Seek(t) => {
                return self.seek(t);
            },
            Msg::MoveSplit(i, t) => {
                return self.move_split(i, t);
            },
            Msg::MoveTrimStart(t) => {
                return self.move_trim(t, true);
            },
            Msg::MoveTrimEnd(t) => {
                return self.move_trim(t, false);
            },
            Msg::ZoneContextMenu(menu) => {
                return self.open_zone_menu(menu);
            },
            Msg::DeleteSelectedSplit => {
                match self.session.selected_split {
                    Some(i) => {
                        return self.remove_split(i);
                    },
                    None => {
                        return quiet_effects();
                    },
                }
            },
            Msg::DeleteSplitAt(i) => {
                return self.delete_split_at(i);
            },
            Msg::Edit(e) => {
                return self.edit(e);
            },
            Msg::DcMeasured(mean) => {
                return self.set_dc(mean);
            },
            Msg::ApplyProcessing(post) => {
                return self.apply_processing(post);
            },
            Msg::PrevZone => {
                return self.step_zone(false);
            },
            Msg::NextZone => {
                return self.step_zone(true);
            },
            Msg::SelectZoneIdx(i) => {
                return self.select_index(i);
            },
            Msg::DspDone { gen, preview } => {
                return self.receive(gen, preview);
            },
            Msg::Undo => {
                self.close_menu();
                return self.undo();
            },
            Msg::Redo => {
                self.close_menu();
                return self.redo();
            },
            Msg::Commit => {
                return self.record(quiet_effects());
            },
            Msg::CopyZoneParams => {
                return self.copy_zone();
            },
            Msg::PasteZoneParams => {
                return self.paste_zone();
            },
            Msg::SetNormalizeState(state) => {
                return self.set_normalize_state(state);
            },
            Msg::SetNormalizeTarget(db) => {
                return self.set_normalize_target(db);
            },
            Msg::PresetLoaded(z) => {
                return self.load_preset(z);
            },
            Msg::OpenAutoDetect(preview) => {
                return self.open_detection(preview);
            },
            Msg::CloseAutoDetect => {
                return self.close_detection();
            },
            Msg::SetDetectSensitivity(v, preview) => {
                return self.set_sensitivity(v, preview);
            },
            Msg::ApplyAutoDetectReplace => {
                return self.replace_splits();
            },
            Msg::ApplyAutoDetectAdd => {
                return self.add_splits();
            },
        }
    }

    /// What a project remembers of the work, with the part of the file on screen.
    pub fn remember(&self, v: Viewport) -> (view: ViewState)
        ensures
            view == self@.remembered(v),
    {
        ViewState {
            zoom: v.zoom,
            scroll: v.scroll,
            selected_zone: match self.session.selected_zone {
                Some(i) => i,
                None => 0,
            },
            snap_enabled: self.panels.snap_enabled,
            normalize_enabled: self.session.normalize.enabled,
            normalize_mode: Some(self.session.normalize.mode),
            normalize_target_db: self.session.normalize.target_db,
            trim_start: self.trim.start,
            trim_end: self.trim.end,
        }
    }

    /// What lies over the waveform: the file menu hides the zone menu, which
    /// hides detection, which hides the settings.
    pub fn overlay(&self) -> (o: Overlay)
        ensures
            o == (if self.panels.file_menu_open {
                Overlay::FileMenu
            } else if self.panels.zone_menu is Some {
                Overlay::ZoneMenu
            } else if self.detection is Some {
                Overlay::AutoDetect
            } else if self.panels.settings_open {
                Overlay::Settings
            } else {
                Overlay::Nothing
            }),
    {
        if self.panels.file_menu_open {
            Overlay::FileMenu
        } else if self.panels.zone_menu.is_some() {
            Overlay::ZoneMenu
        } else if self.detection.is_some() {
            Overlay::AutoDetect
        } else if self.panels.settings_open {
            Overlay::Settings
        } else {
            Overlay::Nothing
        }
    }
}

// ---- Laws -------------------------------------------------------------------

/// An edit stores one of the oversampling factors there are, and the given one
/// where it is one of them.
pub proof fn law_oversampling_is_supported(z: ZoneParams, n: u8)
    ensures
        ({
            let f = edited(z, ZoneEdit::Oversampling(n)).oversampling;
            &&& f == 1 || f == 2 || f == 4 || f == 8
            &&& n == 1 || n == 2 || n == 4 || n == 8 ==> f == n
        }),
{
}

/// Whatever the commands, the splits stay inside the open file, so its zones
/// can always be planned for rendering.
pub proof fn law_zones_can_be_planned(m: EditorModel)
    requires
        m.wf(),
        m.file is Some,
    ensures
        m.session.zones.wf(),
        m.file->0.duration < INFINITY,
        m.session.zones.splits.len() > 0 ==> m.session.zones.splits.last() <= m.file->0.duration,
{
    let s = m.session.zones.splits;
    if s.len() > 0 {
        assert(s[s.len() - 1] <= m.file->0.duration);
    }
}

/// While normalisation is on, no command asks for a preview: the measured
/// level depends on the whole file.
pub proof fn law_no_preview_while_normalized(m: EditorModel, e: ZoneEdit)
    requires
        m.session.normalize.enabled,
    ensures
        step(m, Msg::Edit(e)).1.rebuild != Rebuild::Preview,
{
}

/// Nothing is rendered while no file is open.
pub proof fn law_no_rendering_without_file(m: EditorModel, r: Rebuild, e: Effects)
    requires
        m.file is None,
    ensures
        m.rendering(r, e).1.rebuild == Rebuild::Skip,
        m.rendering(r, e).0.dsp == m.dsp,
{
}

/// Copying a zone and pasting it back changes no zone.
pub proof fn law_paste_own_copy(m: EditorModel)
    requires
        m.wf(),
        m.current() is Some,
    ensures
        step(step(m, Msg::CopyZoneParams).0, Msg::PasteZoneParams).0.session.zones == m.session.zones,
{
    let i = m.current()->0;
    let z = m.session.zones;
    assert(z.with_zone(i, z.zones[i]) =~= z);
}

/// A result that was overtaken by a newer request changes nothing.
pub proof fn law_overtaken_result_ignored(m: EditorModel, gen: u64, preview: bool)
    requires
        gen != m.dsp.gen,
    ensures
        step(m, Msg::DspDone { gen, preview }) == (m, quiet()),
{
}

/// Moving the selection never leaves the zones.
pub proof fn law_selection_stays_valid(m: EditorModel, forward: bool)
    requires
        m.wf(),
        m.current() is Some,
    ensures
        m.stepped(forward).0.current() is Some,
{
}

/// Times that lie strictly inside a file all stay.
proof fn lemma_inside_stays(s: Seq<Bits>, duration: Bits)
    requires
        forall|i: int| 0 <= i < s.len() ==> less(0, #[trigger] s[i]) && less(s[i], duration),
    ensures
        inside(s, duration) == s,
    decreases s.len(),
{
    if s.len() > 0 {
        let front = s.drop_last();
        assert forall|i: int| 0 <= i < front.len() implies less(0, #[trigger] front[i]) && less(
            front[i],
            duration,
        ) by {
            assert(front[i] == s[i]);
        }
        assert(less(0, s[s.len() - 1]));
        lemma_inside_stays(front, duration);
        assert(front.push(s.last()) =~= s);
    }
}

/// A project takes up the work where it was left: opening it on its own file
/// brings back the zones, the selected zone, the normalisation, the trim handles
/// and the snapping, whatever was open before.
pub proof fn law_project_takes_up_work(m: EditorModel, before: EditorModel, v: Viewport, input: BufferId)
    requires
        m.wf(),
        m.file is Some,
        m.current() is Some,
        m.trim.start is Some,
        m.trim.end is Some,
        forall|i: int|
            0 <= i < m.session.zones.splits.len() ==> less(0, #[trigger] m.session.zones.splits[i]) && less(
                m.session.zones.splits[i],
                m.file->0.duration,
            ),
    ensures
        ({
            let after = before.project_opened(input, m.file->0, m.session.zones, m.remembered(v));
            &&& after.session.zones == m.session.zones
            &&& after.session.selected_zone == m.session.selected_zone
            &&& after.session.normalize == m.session.normalize
            &&& after.trim == m.trim
            &&& after.panels.snap_enabled == m.panels.snap_enabled
            &&& after.file == m.file
        }),
{
    let duration = m.file->0.duration;
    lemma_inside_stays(m.session.zones.splits, duration);
    let map = m.session.zones.fitted(duration);
    assert(map.zones =~= m.session.zones.zones);
    assert(map =~= m.session.zones);
    law_ordered_stays(map);
}

} // verus!
