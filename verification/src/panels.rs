//! The controls around the waveform: tabs, toggles, menus and the spectrum
//! view.

use vstd::prelude::*;
use crate::effects::{Effects, LineAction, TimerAction, Note, quiet, repaint, quiet_effects, repaint_effects};
use crate::single::{Bits, clamped, clamp, farther, is_farther, at_most, is_nan, unsigned};
use crate::single::lemma_zero;
use crate::zones::COARSE;

verus! {

/// What the spectrum area shows.
#[derive(Clone, Copy, PartialEq, Eq, Debug, Structural)]
pub enum SpectrumMode {
    Off,
    Spectrum,
    Spectrogram,
}

impl SpectrumMode {
    pub open spec fn after(self) -> SpectrumMode {
        match self {
            SpectrumMode::Off => SpectrumMode::Spectrum,
            SpectrumMode::Spectrum => SpectrumMode::Spectrogram,
            SpectrumMode::Spectrogram => SpectrumMode::Off,
        }
    }

    /// The next view in the cycle.
    pub fn next(self) -> (m: SpectrumMode)
        ensures
            m == self.after(),
    {
        match self {
            SpectrumMode::Off => SpectrumMode::Spectrum,
            SpectrumMode::Spectrum => SpectrumMode::Spectrogram,
            SpectrumMode::Spectrogram => SpectrumMode::Off,
        }
    }

    /// The label of the view button.
    pub fn label(self) -> (s: &'static str)
        ensures
            s@ == (match self {
                SpectrumMode::Off => "FFT: Off"@,
                SpectrumMode::Spectrum => "FFT: Spectrum"@,
                SpectrumMode::Spectrogram => "FFT: Spectrogram"@,
            }),
    {
        match self {
            SpectrumMode::Off => "FFT: Off",
            SpectrumMode::Spectrum => "FFT: Spectrum",
            SpectrumMode::Spectrogram => "FFT: Spectrogram",
        }
    }
}

/// Three steps through the views lead back.
pub proof fn law_spectrum_cycle(m: SpectrumMode)
    ensures
        m.after().after().after() == m,
        m.after() != m,
{
}

/// The tabs of the control panel.
#[derive(Clone, Copy, PartialEq, Eq, Debug, Structural)]
pub enum ControlTab {
    Clipper,
    Levels,
    Fix,
    Output,
}

impl ControlTab {
    /// The tabs from left to right.
    pub fn all() -> (list: [ControlTab; 4])
        ensures
            list@ == seq![ControlTab::Clipper, ControlTab::Levels, ControlTab::Fix, ControlTab::Output],
    {
        let list: [ControlTab; 4] = [
            ControlTab::Clipper,
            ControlTab::Levels,
            ControlTab::Fix,
            ControlTab::Output,
        ];
        list
    }

    /// The heading of the tab.
    pub fn label(self) -> (s: &'static str)
        ensures
            s@ == (match self {
                ControlTab::Clipper => "CLIPPER"@,
                ControlTab::Levels => "LEVELS"@,
                ControlTab::Fix => "FIX"@,
                ControlTab::Output => "OUTPUT"@,
            }),
    {
        match self {
            ControlTab::Clipper => "CLIPPER",
            ControlTab::Levels => "LEVELS",
            ControlTab::Fix => "FIX",
            ControlTab::Output => "OUTPUT",
        }
    }
}

/// The lowest guide level, -60 dB.
pub const GUIDE_FLOOR: Bits = 0xc270_0000;

/// The level at which the guide appears, -3 dB.
pub const GUIDE_START: Bits = 0xc040_0000;

/// The menu of a right-clicked zone, with the split under the pointer, if any.
#[derive(Clone, Copy, PartialEq, Eq, Debug, Structural)]
pub struct ZoneMenu {
    pub zone: usize,
    pub split: Option<usize>,
    pub x: Bits,
    pub y: Bits,
}

/// The state of the controls.
#[derive(Clone, Copy, PartialEq, Eq, Debug, Structural)]
pub struct Panels {
    pub active_tab: ControlTab,
    pub snap_enabled: bool,
    pub show_reduction: bool,
    pub spectrum: SpectrumMode,
    /// Is the spectrogram of the input at hand?
    pub spectrogram_in: bool,
    /// Is the spectrogram of the output at hand?
    pub spectrogram_out: bool,
    pub file_menu_open: bool,
    /// Is the file menu about to close?
    pub close_pending: bool,
    pub guide_db: Option<Bits>,
    pub zone_menu: Option<ZoneMenu>,
    pub settings_open: bool,
}

/// The guide after it is dragged to `db`.
pub open spec fn guide_at(guide: Option<Bits>, db: Bits) -> Option<Bits> {
    let to = clamped(db, GUIDE_FLOOR, 0);
    match guide {
        Some(g) => if farther(g, to, COARSE) {
            Some(to)
        } else {
            guide
        },
        None => Some(to),
    }
}

impl Panels {
    pub open spec fn initial() -> Panels {
        Panels {
            active_tab: ControlTab::Clipper,
            snap_enabled: true,
            show_reduction: false,
            spectrum: SpectrumMode::Off,
            spectrogram_in: false,
            spectrogram_out: false,
            file_menu_open: false,
            close_pending: false,
            guide_db: None,
            zone_menu: None,
            settings_open: false,
        }
    }

    /// The state at start.
    pub fn new() -> (p: Panels)
        ensures
            p == Panels::initial(),
    {
        Panels {
            active_tab: ControlTab::Clipper,
            snap_enabled: true,
            show_reduction: false,
            spectrum: SpectrumMode::Off,
            spectrogram_in: false,
            spectrogram_out: false,
            file_menu_open: false,
            close_pending: false,
            guide_db: None,
            zone_menu: None,
            settings_open: false,
        }
    }

    /// Drags the guide to a level between -60 and 0 dB.
    fn with_guide_at(self, db: Bits) -> (r: (Panels, Effects))
        ensures
            r == self.after(PanelMsg::SetGuideDb(db)),
    {
        proof {
            lemma_guide_range();
        }
        let to: Bits = clamp(db, GUIDE_FLOOR, 0);
        let changed: bool = match self.guide_db {
            Some(g) => is_farther(g, to, COARSE),
            None => true,
        };
        (
            Panels {
                guide_db: if changed {
                    Some(to)
                } else {
                    self.guide_db
                },
                ..self
            },
            Effects { canvas: changed, ..quiet_effects() },
        )
    }

    /// Shows or hides the guide.
    fn with_guide_toggled(self) -> (p: Panels)
        ensures
            p == (Panels {
                guide_db: match self.guide_db {
                    Some(_) => None,
                    None => Some(GUIDE_START),
                },
                ..self
            }),
    {
        Panels {
            guide_db: match self.guide_db {
                Some(_) => None,
                None => Some(GUIDE_START),
            },
            ..self
        }
    }

    /// Goes to the next spectrum view, with the spectrograms that have to be
    /// computed for it.
    fn next_spectrum(self) -> (r: (Panels, Effects))
        ensures
            r == self.after(PanelMsg::CycleSpectrumMode),
    {
        let spectrum: SpectrumMode = self.spectrum.next();
        let shown: bool = spectrum == SpectrumMode::Spectrogram;
        (
            Panels { spectrum, ..self }.with_menu_closed(),
            Effects {
                meter: true,
                line: if spectrum == SpectrumMode::Spectrum {
                    LineAction::Refresh
                } else {
                    LineAction::Keep
                },
                spectrogram_in: shown && !self.spectrogram_in,
                spectrogram_out: shown && !self.spectrogram_out,
                ..repaint_effects()
            },
        )
    }
}

/// A command to one of the controls.
#[derive(Clone, Copy, PartialEq, Eq, Debug, Structural)]
pub enum PanelMsg {
    SelectTab(ControlTab),
    ToggleSnap,
    ToggleReduction,
    CycleSpectrumMode,
    SpectrogramInDone,
    SpectrogramOutDone,
    ToggleFileMenu,
    CloseFileMenu,
    /// The pointer left the file menu.
    MenuMouseExit,
    /// The pointer came back to the file menu.
    MenuMouseEnter,
    /// A menu item that only concerns the program, such as opening a file.
    MenuCommand,
    ToggleGuide,
    SetGuideDb(Bits),
    CloseZoneContextMenu,
    OpenSettings,
    CloseSettings,
    SaveSettings,
}

/// Stop the timer of the file menu, if it is running.
pub open spec fn cancelling(pending: bool) -> Effects {
    Effects {
        timer: if pending {
            TimerAction::Cancel
        } else {
            TimerAction::Keep
        },
        ..quiet()
    }
}

fn cancel_effects(pending: bool) -> (e: Effects)
    ensures
        e == cancelling(pending),
{
    Effects {
        timer: if pending {
            TimerAction::Cancel
        } else {
            TimerAction::Keep
        },
        ..quiet_effects()
    }
}

impl Panels {
    /// With the file menu closed, as by every command that is in it.
    pub open spec fn menu_closed(self) -> Panels {
        Panels { file_menu_open: false, ..self }
    }

    /// The controls and the effects after a command.
    pub open spec fn after(self, msg: PanelMsg) -> (Panels, Effects) {
        match msg {
            PanelMsg::SelectTab(tab) => (Panels { active_tab: tab, ..self }, quiet()),
            PanelMsg::ToggleSnap => (
                Panels { snap_enabled: !self.snap_enabled, ..self }.menu_closed(),
                quiet(),
            ),
            PanelMsg::ToggleReduction => (
                Panels { show_reduction: !self.show_reduction, ..self }.menu_closed(),
                repaint(),
            ),
            PanelMsg::CycleSpectrumMode => (
                Panels { spectrum: self.spectrum.after(), ..self }.menu_closed(),
                Effects {
                    meter: true,
                    line: if self.spectrum == SpectrumMode::Off {
                        LineAction::Refresh
                    } else {
                        LineAction::Keep
                    },
                    spectrogram_in: self.spectrum == SpectrumMode::Spectrum && !self.spectrogram_in,
                    spectrogram_out: self.spectrum == SpectrumMode::Spectrum && !self.spectrogram_out,
                    ..repaint()
                },
            ),
            PanelMsg::SpectrogramInDone => (Panels { spectrogram_in: true, ..self }, repaint()),
            PanelMsg::SpectrogramOutDone => (Panels { spectrogram_out: true, ..self }, repaint()),
            PanelMsg::ToggleFileMenu => (
                Panels { file_menu_open: !self.file_menu_open, close_pending: false, ..self },
                cancelling(self.close_pending),
            ),
            PanelMsg::CloseFileMenu => (
                Panels { file_menu_open: false, close_pending: false, ..self },
                quiet(),
            ),
            PanelMsg::MenuMouseExit => (
                Panels { close_pending: true, ..self },
                Effects { timer: TimerAction::Start, ..quiet() },
            ),
            PanelMsg::MenuMouseEnter => (
                Panels { close_pending: false, ..self },
                cancelling(self.close_pending),
            ),
            PanelMsg::MenuCommand => (self.menu_closed(), quiet()),
            PanelMsg::ToggleGuide => (
                Panels {
                    guide_db: match self.guide_db {
                        Some(_) => None,
                        None => Some(GUIDE_START),
                    },
                    ..self
                }.menu_closed(),
                repaint(),
            ),
            PanelMsg::SetGuideDb(db) => (
                Panels { guide_db: guide_at(self.guide_db, db), ..self },
                Effects {
                    canvas: match self.guide_db {
                        Some(g) => farther(g, clamped(db, GUIDE_FLOOR, 0), COARSE),
                        None => true,
                    },
                    ..quiet()
                },
            ),
            PanelMsg::CloseZoneContextMenu => (Panels { zone_menu: None, ..self }, quiet()),
            PanelMsg::OpenSettings => (Panels { settings_open: true, ..self }.menu_closed(), quiet()),
            PanelMsg::CloseSettings => (Panels { settings_open: false, ..self }, quiet()),
            PanelMsg::SaveSettings => (
                Panels { settings_open: false, ..self },
                Effects {
                    note: if self.settings_open {
                        Note::SettingsSaved
                    } else {
                        Note::Keep
                    },
                    ..quiet()
                },
            ),
        }
    }

    /// Carries out a command.
    pub fn update(&mut self, msg: PanelMsg) -> (out: Effects)
        ensures
            *final(self) == old(self).after(msg).0,
            out == old(self).after(msg).1,
    {
        let (next, out): (Panels, Effects) = self.changed(msg);
        *self = next;
        out
    }

    fn with_menu_closed(self) -> (p: Panels)
        ensures
            p == self.menu_closed(),
    {
        Panels { file_menu_open: false, ..self }
    }

    fn changed(self, msg: PanelMsg) -> (r: (Panels, Effects))
        ensures
            r == self.after(msg),
    {
        match msg {
            PanelMsg::SelectTab(tab) => (Panels { active_tab: tab, ..self }, quiet_effects()),
            PanelMsg::ToggleSnap => (
                Panels { snap_enabled: !self.snap_enabled, ..self }.with_menu_closed(),
                quiet_effects(),
            ),
            PanelMsg::ToggleReduction => (
                Panels { show_reduction: !self.show_reduction, ..self }.with_menu_closed(),
                repaint_effects(),
            ),
            PanelMsg::CycleSpectrumMode => self.next_spectrum(),
            PanelMsg::SpectrogramInDone => (Panels { spectrogram_in: true, ..self }, repaint_effects()),
            PanelMsg::SpectrogramOutDone => (Panels { spectrogram_out: true, ..self }, repaint_effects()),
            PanelMsg::ToggleFileMenu => (
                Panels { file_menu_open: !self.file_menu_open, close_pending: false, ..self },
                cancel_effects(self.close_pending),
            ),
            PanelMsg::CloseFileMenu => (
                Panels { file_menu_open: false, close_pending: false, ..self },
                quiet_effects(),
            ),
            PanelMsg::MenuMouseExit => (
                Panels { close_pending: true, ..self },
                Effects { timer: TimerAction::Start, ..quiet_effects() },
            ),
            PanelMsg::MenuMouseEnter => (
                Panels { close_pending: false, ..self },
                cancel_effects(self.close_pending),
            ),
            PanelMsg::MenuCommand => (self.with_menu_closed(), quiet_effects()),
            PanelMsg::ToggleGuide => (self.with_guide_toggled().with_menu_closed(), repaint_effects()),
            PanelMsg::SetGuideDb(db) => self.with_guide_at(db),
            PanelMsg::CloseZoneContextMenu => (Panels { zone_menu: None, ..self }, quiet_effects()),
            PanelMsg::OpenSettings => (
                Panels { settings_open: true, ..self }.with_menu_closed(),
                quiet_effects(),
            ),
            PanelMsg::CloseSettings => (Panels { settings_open: false, ..self }, quiet_effects()),
            PanelMsg::SaveSettings => (
                Panels { settings_open: false, ..self },
                Effects {
                    note: if self.settings_open {
                        Note::SettingsSaved
                    } else {
                        Note::Keep
                    },
                    ..quiet_effects()
                },
            ),
        }
    }
}

/// The guide stays between -60 and 0 dB.
pub proof fn law_guide_in_range(guide: Option<Bits>, db: Bits)
    requires
        guide matches Some(g) ==> at_most(GUIDE_FLOOR, g) && at_most(g, 0),
        !is_nan(db),
    ensures
        guide_at(guide, db) matches Some(g) && at_most(GUIDE_FLOOR, g) && at_most(g, 0),
{
    lemma_guide_range();
}

proof fn lemma_guide_range()
    ensures
        at_most(GUIDE_FLOOR, 0),
{
    lemma_zero(0);
    assert(unsigned(GUIDE_FLOOR) == 0x4270_0000);
}

/// What lies over the waveform. Only one of these is shown.
#[derive(Clone, Copy, PartialEq, Eq, Debug, Structural)]
pub enum Overlay {
    Nothing,
    FileMenu,
    ZoneMenu,
    AutoDetect,
    Settings,
}

} // verus!
