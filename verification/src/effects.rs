//! What the program has to do after a command.

use vstd::prelude::*;
use crate::worker::Rebuild;

verus! {

/// What happens to the cached spectrum line.
#[derive(Clone, Copy, PartialEq, Eq, Debug, Structural)]
pub enum LineAction {
    Keep,
    /// Recompute it if the playhead moved.
    Refresh,
    /// Forget it.
    Drop,
    /// Forget it and recompute it.
    Renew,
}

/// What happens to the timer that closes the file menu.
#[derive(Clone, Copy, PartialEq, Eq, Debug, Structural)]
pub enum TimerAction {
    Keep,
    Start,
    Cancel,
}

/// What the status line says.
#[derive(Clone, Copy, PartialEq, Eq, Debug, Structural)]
pub enum Note {
    Keep,
    LoadFirst,
    CopiedZone,
    AutoDetected(usize),
    AddedSplits(usize),
    PresetLoaded,
    SettingsSaved,
}

/// What the program has to do after a command.
#[derive(Clone, Copy, PartialEq, Eq, Debug, Structural)]
pub struct Effects {
    pub rebuild: Rebuild,
    pub canvas: bool,
    pub overlay: bool,
    pub meter: bool,
    /// Measure the peak of the selected zone again.
    pub peak: bool,
    pub line: LineAction,
    pub spectrogram_in: bool,
    pub spectrogram_out: bool,
    pub timer: TimerAction,
    pub note: Note,
}

/// Nothing to do.
pub open spec fn quiet() -> Effects {
    Effects {
        rebuild: Rebuild::Skip,
        canvas: false,
        overlay: false,
        meter: false,
        peak: false,
        line: LineAction::Keep,
        spectrogram_in: false,
        spectrogram_out: false,
        timer: TimerAction::Keep,
        note: Note::Keep,
    }
}

/// Repaint the waveform.
pub open spec fn repaint() -> Effects {
    Effects { canvas: true, ..quiet() }
}

/// Nothing to do.
pub fn quiet_effects() -> (e: Effects)
    ensures
        e == quiet(),
{
    Effects {
        rebuild: Rebuild::Skip,
        canvas: false,
        overlay: false,
        meter: false,
        peak: false,
        line: LineAction::Keep,
        spectrogram_in: false,
        spectrogram_out: false,
        timer: TimerAction::Keep,
        note: Note::Keep,
    }
}

/// Repaint the waveform.
pub fn repaint_effects() -> (e: Effects)
    ensures
        e == repaint(),
{
    Effects { canvas: true, ..quiet_effects() }
}

} // verus!
