//! The trim handles: the part of a file that is exported.
//!
//! Trimming is not destructive. The handles start at the edges of the file and
//! never cross each other.

use vstd::prelude::*;
use crate::plan::{or_else, trim_frames, compute_trim_window};
use crate::single::{Bits, INFINITY, at_most, is_at_most, is_nan, clamped, clamp, farther, is_farther};
use crate::single::{lemma_zero, lemma_pattern_order};
use crate::zones::SMALL;

verus! {

/// Where the handles stand, once a file is open.
#[derive(Clone, Copy, PartialEq, Eq, Debug, Structural)]
pub struct Trim {
    pub start: Option<Bits>,
    pub end: Option<Bits>,
}

/// Is the new position of a handle worth taking over?
pub open spec fn moved(handle: Option<Bits>, to: Bits) -> bool {
    match handle {
        None => true,
        Some(b) => farther(b, to, SMALL),
    }
}

impl Trim {
    /// Both handles stand inside the file, in order.
    pub open spec fn wf(self, duration: Bits) -> bool {
        &&& at_most(0, duration)
        &&& self.start matches Some(a) ==> at_most(0, a) && at_most(a, duration)
        &&& self.end matches Some(b) ==> at_most(0, b) && at_most(b, duration)
        &&& self.start is Some && self.end is Some ==> at_most(self.start->0, self.end->0)
    }

    /// The whole file.
    pub open spec fn whole(duration: Bits) -> Trim {
        Trim { start: Some(0), end: Some(duration) }
    }

    /// Where the start handle lands: between the start of the file and the end
    /// handle.
    pub open spec fn start_target(self, t: Bits, duration: Bits) -> Bits {
        clamped(t, 0, or_else(self.end, duration))
    }

    /// Where the end handle lands: between the start handle and the end of the
    /// file.
    pub open spec fn end_target(self, t: Bits, duration: Bits) -> Bits {
        clamped(t, or_else(self.start, 0), duration)
    }

    pub open spec fn with_start(self, t: Bits, duration: Bits) -> Trim {
        let to = self.start_target(t, duration);
        if moved(self.start, to) {
            Trim { start: Some(to), ..self }
        } else {
            self
        }
    }

    pub open spec fn with_end(self, t: Bits, duration: Bits) -> Trim {
        let to = self.end_target(t, duration);
        if moved(self.end, to) {
            Trim { end: Some(to), ..self }
        } else {
            self
        }
    }

    /// Saved handles, brought inside the file and in order.
    pub open spec fn restored(start: Option<Bits>, end: Option<Bits>, duration: Bits) -> Trim {
        let a = clamped(or_else(start, 0), 0, duration);
        let b = clamped(or_else(end, duration), 0, duration);
        if at_most(a, b) {
            Trim { start: Some(a), end: Some(b) }
        } else {
            Trim { start: Some(b), end: Some(a) }
        }
    }

    /// Handles at the edges of the file.
    pub fn at_edges(duration: Bits) -> (t: Trim)
        requires
            duration < INFINITY,
        ensures
            t == Trim::whole(duration),
            t.wf(duration),
    {
        proof {
            lemma_not_negative(duration);
        }
        Trim { start: Some(0), end: Some(duration) }
    }

    /// Drags the start handle. Tells whether it moved.
    pub fn move_start(&mut self, t: Bits, duration: Bits) -> (changed: bool)
        requires
            old(self).wf(duration),
            !is_nan(t),
        ensures
            *final(self) == old(self).with_start(t, duration),
            changed == moved(old(self).start, old(self).start_target(t, duration)),
            final(self).wf(duration),
    {
        let end: Bits = match self.end {
            None => duration,
            Some(b) => b,
        };
        let to: Bits = clamp(t, 0, end);
        let changed: bool = match self.start {
            None => true,
            Some(a) => is_farther(a, to, SMALL),
        };
        if changed {
            self.start = Some(to);
        }
        changed
    }

    /// Drags the end handle. Tells whether it moved.
    pub fn move_end(&mut self, t: Bits, duration: Bits) -> (changed: bool)
        requires
            old(self).wf(duration),
            !is_nan(t),
        ensures
            *final(self) == old(self).with_end(t, duration),
            changed == moved(old(self).end, old(self).end_target(t, duration)),
            final(self).wf(duration),
    {
        let start: Bits = match self.start {
            None => 0,
            Some(a) => a,
        };
        let to: Bits = clamp(t, start, duration);
        let changed: bool = match self.end {
            None => true,
            Some(b) => is_farther(b, to, SMALL),
        };
        if changed {
            self.end = Some(to);
        }
        changed
    }

    /// Takes over saved handles.
    pub fn restore(start: Option<Bits>, end: Option<Bits>, duration: Bits) -> (t: Trim)
        requires
            duration < INFINITY,
            start matches Some(a) ==> !is_nan(a),
            end matches Some(b) ==> !is_nan(b),
        ensures
            t == Trim::restored(start, end, duration),
            t.wf(duration),
    {
        proof {
            lemma_not_negative(duration);
        }
        let a: Bits = clamp(
            match start {
                None => 0,
                Some(x) => x,
            },
            0,
            duration,
        );
        let b: Bits = clamp(
            match end {
                None => duration,
                Some(x) => x,
            },
            0,
            duration,
        );
        if is_at_most(a, b) {
            Trim { start: Some(a), end: Some(b) }
        } else {
            Trim { start: Some(b), end: Some(a) }
        }
    }

    /// The frames that the handles keep, or nothing where they keep the whole
    /// file.
    pub fn window(&self, sample_rate: u32, frames: usize, duration: Bits) -> (w: Option<(usize, usize)>)
        requires
            duration < INFINITY,
        ensures
            w == trim_frames(
                or_else(self.start, 0),
                or_else(self.end, duration),
                duration,
                sample_rate,
                frames as nat,
            ),
            w matches Some((a, b)) ==> a < b <= frames,
    {
        compute_trim_window(sample_rate, frames, duration, self.start, self.end)
    }
}

proof fn lemma_not_negative(duration: Bits)
    requires
        duration < INFINITY,
    ensures
        at_most(0, duration),
        at_most(duration, duration),
        at_most(0, 0),
{
    lemma_zero(0);
    lemma_pattern_order(0, duration);
}

/// The handles never cross and never leave the file, however they are dragged.
pub proof fn law_handles_stay_in_order(t: Trim, a: Bits, b: Bits, duration: Bits)
    requires
        t.wf(duration),
        !is_nan(a),
        !is_nan(b),
    ensures
        t.with_start(a, duration).wf(duration),
        t.with_end(b, duration).wf(duration),
{
}

} // verus!
