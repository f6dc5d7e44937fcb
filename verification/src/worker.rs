//! The bookkeeping of background rendering.
//!
//! Every change of the sound asks for a rendering and gets a number. Results
//! of earlier numbers are dropped, so a late result never replaces a newer
//! one.

use vstd::prelude::*;

verus! {

/// What a change asks for.
#[derive(Clone, Copy, PartialEq, Eq, Debug, Structural)]
pub enum Rebuild {
    /// Nothing to render.
    Skip,
    /// A full rendering.
    Full,
    /// A coarse rendering for the display, while a control is dragged.
    Preview,
}

/// What to do with a result.
#[derive(Clone, Copy, PartialEq, Eq, Debug, Structural)]
pub enum Arrival {
    /// It belongs to an earlier request.
    Stale,
    /// No file is open any more.
    Unused,
    /// Only the display changes.
    Envelopes,
    /// The processed sound changes.
    Sound,
}

/// The number of the latest request, and whether its result is awaited.
#[derive(Clone, Copy, PartialEq, Eq, Debug, Structural)]
pub struct DspQueue {
    pub gen: u64,
    pub pending: bool,
}

/// The number after `gen`, starting over at the end of the range.
pub open spec fn next_gen(gen: u64) -> u64 {
    if gen == u64::MAX {
        0
    } else {
        (gen + 1) as u64
    }
}

impl DspQueue {
    /// After a request, if a file is open and there is something to render.
    pub open spec fn requested(self, rebuild: Rebuild, open: bool) -> DspQueue {
        if open && rebuild != Rebuild::Skip {
            DspQueue { gen: next_gen(self.gen), pending: true }
        } else {
            self
        }
    }

    pub open spec fn arrival(self, gen: u64, preview: bool, open: bool) -> Arrival {
        if gen != self.gen {
            Arrival::Stale
        } else if !open {
            Arrival::Unused
        } else if preview {
            Arrival::Envelopes
        } else {
            Arrival::Sound
        }
    }

    /// After a result arrived.
    pub open spec fn received(self, gen: u64) -> DspQueue {
        if gen != self.gen {
            self
        } else {
            DspQueue { pending: false, ..self }
        }
    }

    pub fn new() -> (q: DspQueue)
        ensures
            q == (DspQueue { gen: 0, pending: false }),
    {
        DspQueue { gen: 0, pending: false }
    }

    /// Asks for a rendering. The number goes with the job.
    pub fn request(&mut self, rebuild: Rebuild, open: bool) -> (job: Option<u64>)
        ensures
            *final(self) == old(self).requested(rebuild, open),
            job == (if open && rebuild != Rebuild::Skip {
                Some(next_gen(old(self).gen))
            } else {
                None
            }),
    {
        if !open || rebuild == Rebuild::Skip {
            return None;
        }
        self.gen = if self.gen == u64::MAX {
            0
        } else {
            self.gen + 1
        };
        self.pending = true;
        Some(self.gen)
    }

    /// What is to be done with a result, before it is taken note of.
    pub fn expects(&self, gen: u64, preview: bool, open: bool) -> (a: Arrival)
        ensures
            a == self.arrival(gen, preview, open),
    {
        if gen != self.gen {
            Arrival::Stale
        } else if !open {
            Arrival::Unused
        } else if preview {
            Arrival::Envelopes
        } else {
            Arrival::Sound
        }
    }

    /// Takes note of a result and says what to do with it.
    pub fn receive(&mut self, gen: u64, preview: bool, open: bool) -> (a: Arrival)
        ensures
            *final(self) == old(self).received(gen),
            a == old(self).arrival(gen, preview, open),
    {
        if gen != self.gen {
            return Arrival::Stale;
        }
        self.pending = false;
        if !open {
            Arrival::Unused
        } else if preview {
            Arrival::Envelopes
        } else {
            Arrival::Sound
        }
    }
}

/// A result that was asked for before a newer request is dropped, whatever it
/// holds, and the newer one stays awaited.
pub proof fn law_stale_results_are_dropped(q: DspQueue, rebuild: Rebuild, preview: bool)
    requires
        rebuild != Rebuild::Skip,
    ensures
        q.requested(rebuild, true).arrival(q.gen, preview, true) == Arrival::Stale,
        q.requested(rebuild, true).received(q.gen) == q.requested(rebuild, true),
        q.requested(rebuild, true).received(q.requested(rebuild, true).gen).pending == false,
{
}

/// A preview never replaces the processed sound.
pub proof fn law_preview_only_changes_display(q: DspQueue, gen: u64, open: bool)
    ensures
        q.arrival(gen, true, open) != Arrival::Sound,
{
}

} // verus!
