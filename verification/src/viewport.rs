//! The part of the file that is on screen.
//!
//! `zoom` is how many times the visible window fits into the file, `scroll`
//! the second at its left edge.

use vstd::prelude::*;
use vstd::arithmetic::power2::*;
use crate::arith::lemma_sum_down;
use crate::single::{HALF, INFINITY, TWO};
use crate::single::{Bits, ONE, magnitude, value, negative, unsigned, significand, last_digit, is_finite, is_nan, less, less_than, at_most, clamped, clamp};
use crate::single::{lemma_zero, lemma_magnitude_order};
use crate::scalar::{fadd, fsub, fmul, fdiv, fmax, fabs, negated, is_zero};
use crate::scalar::{add_to, subtract, multiply, divide_by, larger, absolute};
use crate::scalar::{lemma_add_number, lemma_mul_number, lemma_div_number, lemma_negated, lemma_shrinks};

verus! {

/// The greatest zoom.
pub const MILLION: Bits = 0x4974_2400;

/// Zoom changes below a thousandth, and scroll changes below a millionth of a
/// second, are not worth a repaint.
pub const ZOOM_STEP: Bits = 0x3a83_126f;
pub const SCROLL_STEP: Bits = 0x3586_37bd;


#[derive(Clone, Copy, PartialEq, Eq, Debug, Structural)]
pub struct Viewport {
    pub zoom: Bits,
    pub scroll: Bits,
}

/// The farthest that a file of that length can be scrolled at that zoom.
pub open spec fn scroll_limit(duration: Bits, zoom: Bits) -> Bits {
    fmax(fsub(duration, fdiv(duration, zoom)), 0)
}

/// The zoom that a factor leads to.
pub open spec fn scaled(zoom: Bits, factor: Bits) -> Bits {
    clamped(fmul(zoom, factor), ONE, MILLION)
}

impl Viewport {
    /// The view after a change of zoom that keeps `anchor` at its place on the
    /// screen.
    pub open spec fn around(self, zoom: Bits, anchor: Bits, duration: Bits) -> Viewport {
        let place = clamped(fdiv(fsub(anchor, self.scroll), fdiv(duration, self.zoom)), 0, ONE);
        Viewport {
            zoom,
            scroll: clamped(
                fsub(anchor, fmul(place, fdiv(duration, zoom))),
                0,
                scroll_limit(duration, zoom),
            ),
        }
    }

    /// The view scrolled to a second, as far as the file allows.
    pub open spec fn scrolled(self, t: Bits, duration: Bits) -> Viewport {
        let scroll = clamped(t, 0, scroll_limit(duration, self.zoom));
        if less(SCROLL_STEP, fabs(fsub(scroll, self.scroll))) {
            Viewport { scroll, ..self }
        } else {
            self
        }
    }

    /// Half a window before a second.
    pub open spec fn before(self, t: Bits, duration: Bits) -> Bits {
        fsub(t, fdiv(fdiv(duration, self.zoom), TWO))
    }

    /// The view zoomed by a factor at the pointer.
    pub open spec fn zoomed(self, factor: Bits, anchor: Bits, duration: Bits) -> Viewport {
        let zoom = scaled(self.zoom, factor);
        if less(ZOOM_STEP, fabs(fsub(zoom, self.zoom))) {
            self.around(zoom, anchor, duration)
        } else {
            self
        }
    }

    /// The view zoomed by a factor at the playhead.
    pub open spec fn zoomed_at_playhead(self, factor: Bits, playhead: Bits, duration: Bits) -> Viewport {
        let zoom = scaled(self.zoom, factor);
        if less(fabs(fsub(zoom, self.zoom)), ZOOM_STEP) {
            self
        } else {
            self.around(zoom, clamped(playhead, 0, duration), duration)
        }
    }

    /// The view that a project remembers, as far as it can be.
    pub open spec fn restored(zoom: Bits, scroll: Bits, duration: Bits) -> Viewport {
        Viewport { zoom: clamped(zoom, ONE, MILLION), scroll: clamped(scroll, 0, duration) }
    }

    /// The window lies inside a file of that length.
    pub open spec fn inside(self, duration: Bits) -> bool {
        &&& at_most(ONE, self.zoom)
        &&& at_most(self.zoom, MILLION)
        &&& at_most(0, self.scroll)
        &&& at_most(self.scroll, scroll_limit(duration, self.zoom))
    }

    /// The whole file.
    pub fn new() -> (v: Viewport)
        ensures
            v == (Viewport { zoom: ONE, scroll: 0 }),
    {
        Viewport { zoom: ONE, scroll: 0 }
    }

    /// The view that a project remembers, as far as it can be.
    pub fn restore(zoom: Bits, scroll: Bits, duration: Bits) -> (v: Viewport)
        requires
            at_most(0, duration),
        ensures
            v == Viewport::restored(zoom, scroll, duration),
    {
        proof {
            lemma_one();
        }
        Viewport { zoom: clamp(zoom, ONE, MILLION), scroll: clamp(scroll, 0, duration) }
    }

    fn place_around(&self, zoom: Bits, anchor: Bits, duration: Bits) -> (v: Viewport)
        ensures
            v == self.around(zoom, anchor, duration),
    {
        proof {
            lemma_limit(duration, zoom);
            lemma_one();
        }
        let before: Bits = divide_by(duration, self.zoom);
        let after: Bits = divide_by(duration, zoom);
        let place: Bits = clamp(divide_by(subtract(anchor, self.scroll), before), 0, ONE);
        let limit: Bits = larger(subtract(duration, after), 0);
        Viewport {
            zoom,
            scroll: clamp(subtract(anchor, multiply(place, after)), 0, limit),
        }
    }

    fn scale(&self, factor: Bits) -> (zoom: Bits)
        ensures
            zoom == scaled(self.zoom, factor),
    {
        proof {
            lemma_one();
        }
        clamp(multiply(self.zoom, factor), ONE, MILLION)
    }

    /// Zooms by a factor, keeping the second under the pointer in place. Says
    /// whether the view changed.
    pub fn zoom_at(&mut self, factor: Bits, anchor: Bits, duration: Bits) -> (changed: bool)
        ensures
            *final(self) == old(self).zoomed(factor, anchor, duration),
            changed == less(ZOOM_STEP, fabs(fsub(scaled(old(self).zoom, factor), old(self).zoom))),
    {
        let zoom: Bits = self.scale(factor);
        if !less_than(ZOOM_STEP, absolute(subtract(zoom, self.zoom))) {
            return false;
        }
        *self = self.place_around(zoom, anchor, duration);
        true
    }

    /// Zooms by a factor, keeping the playhead in place. Says whether the view
    /// changed.
    pub fn zoom_around_playhead(&mut self, factor: Bits, playhead: Bits, duration: Bits) -> (changed: bool)
        requires
            at_most(0, duration),
        ensures
            *final(self) == old(self).zoomed_at_playhead(factor, playhead, duration),
            changed == !less(fabs(fsub(scaled(old(self).zoom, factor), old(self).zoom)), ZOOM_STEP),
    {
        let zoom: Bits = self.scale(factor);
        if less_than(absolute(subtract(zoom, self.zoom)), ZOOM_STEP) {
            return false;
        }
        let anchor: Bits = clamp(playhead, 0, duration);
        *self = self.place_around(zoom, anchor, duration);
        true
    }

    /// Zooms in by two at the playhead.
    pub fn zoom_in(&mut self, playhead: Bits, duration: Bits) -> (changed: bool)
        requires
            at_most(0, duration),
        ensures
            *final(self) == old(self).zoomed_at_playhead(TWO, playhead, duration),
            changed == !less(fabs(fsub(scaled(old(self).zoom, TWO), old(self).zoom)), ZOOM_STEP),
    {
        self.zoom_around_playhead(TWO, playhead, duration)
    }

    /// Zooms out by two at the playhead.
    pub fn zoom_out(&mut self, playhead: Bits, duration: Bits) -> (changed: bool)
        requires
            at_most(0, duration),
        ensures
            *final(self) == old(self).zoomed_at_playhead(HALF, playhead, duration),
            changed == !less(fabs(fsub(scaled(old(self).zoom, HALF), old(self).zoom)), ZOOM_STEP),
    {
        self.zoom_around_playhead(HALF, playhead, duration)
    }

    /// Scrolls to a second. Says whether the view changed.
    pub fn set_scroll(&mut self, t: Bits, duration: Bits) -> (changed: bool)
        ensures
            *final(self) == old(self).scrolled(t, duration),
            changed == less(
                SCROLL_STEP,
                fabs(fsub(clamped(t, 0, scroll_limit(duration, old(self).zoom)), old(self).scroll)),
            ),
    {
        proof {
            lemma_limit(duration, self.zoom);
        }
        let limit: Bits = larger(subtract(duration, divide_by(duration, self.zoom)), 0);
        let scroll: Bits = clamp(t, 0, limit);
        if less_than(SCROLL_STEP, absolute(subtract(scroll, self.scroll))) {
            self.scroll = scroll;
            return true;
        }
        false
    }

    /// Scrolls so that a second lies in the middle. Says whether the view
    /// changed.
    pub fn centre_on(&mut self, t: Bits, duration: Bits) -> (changed: bool)
        ensures
            *final(self) == old(self).scrolled(old(self).before(t, duration), duration),
            changed == less(
                SCROLL_STEP,
                fabs(
                    fsub(
                        clamped(
                            old(self).before(t, duration),
                            0,
                            scroll_limit(duration, old(self).zoom),
                        ),
                        old(self).scroll,
                    ),
                ),
            ),
    {
        let half: Bits = divide_by(divide_by(duration, self.zoom), TWO);
        self.set_scroll(subtract(t, half), duration)
    }

    /// Scrolls by some seconds. Says whether the view changed.
    pub fn pan(&mut self, delta: Bits, duration: Bits) -> (changed: bool)
        ensures
            *final(self) == old(self).scrolled(fadd(old(self).scroll, delta), duration),
            changed == less(
                SCROLL_STEP,
                fabs(
                    fsub(
                        clamped(
                            fadd(old(self).scroll, delta),
                            0,
                            scroll_limit(duration, old(self).zoom),
                        ),
                        old(self).scroll,
                    ),
                ),
            ),
    {
        let t: Bits = add_to(self.scroll, delta);
        self.set_scroll(t, duration)
    }
}

proof fn lemma_one()
    ensures
        at_most(0, ONE),
        at_most(ONE, MILLION),
        magnitude(ONE) == pow2(149),
        magnitude(MILLION) <= pow2(169),
{
    lemma2_to64();
    lemma_magnitude_order(0, ONE);
    lemma_magnitude_order(ONE, MILLION);
    lemma_pow2_adds(23, 126);
    lemma_pow2_adds(23, 145);
    lemma_pow2_adds(24, 145);
    assert(last_digit(ONE) == 126 && significand(ONE) == 0x80_0000);
    assert(last_digit(MILLION) == 145 && significand(MILLION) <= 0x100_0000) by {
        assert(unsigned(MILLION) / 0x80_0000 == 146);
    }
    lemma_pow2_pos(145);
    assert(magnitude(MILLION) <= 0x100_0000 * pow2(145)) by (nonlinear_arith)
        requires
            magnitude(MILLION) == significand(MILLION) * pow2(145),
            significand(MILLION) <= 0x100_0000,
    ;
}

proof fn lemma_limit(duration: Bits, zoom: Bits)
    ensures
        at_most(0, scroll_limit(duration, zoom)),
{
    lemma_zero(0);
    let x = fsub(duration, fdiv(duration, zoom));
    lemma_magnitude_order(0, x);
}

/// The shortest file that has a frame: one at the highest rate.
pub const SHORTEST: Bits = 0x2f80_0000;

/// The window stays inside the file: no zooming, scrolling or panning moves it
/// past the beginning or the end, or beyond the range of zooms.
pub proof fn law_view_stays_inside(v: Viewport, duration: Bits, factor: Bits, anchor: Bits, t: Bits)
    requires
        is_finite(duration),
        at_most(SHORTEST, duration),
        v.inside(duration),
        !is_nan(factor),
        is_finite(anchor),
        !is_nan(t),
    ensures
        v.zoomed(factor, anchor, duration).inside(duration),
        v.zoomed_at_playhead(factor, anchor, duration).inside(duration),
        v.scrolled(t, duration).inside(duration),
        v.scrolled(fadd(v.scroll, t), duration).inside(duration),
{
    lemma_one();
    lemma_limit(duration, v.zoom);
    lemma_finite_zoom(v.zoom);
    lemma_finite_scroll(v, duration);
    let zoom = scaled(v.zoom, factor);
    assert(!is_nan(fmul(v.zoom, factor))) by {
        if is_finite(factor) {
            lemma_mul_number(v.zoom, factor);
        }
    }
    assert(at_most(ONE, zoom) && at_most(zoom, MILLION));
    lemma_around_inside(v, zoom, anchor, duration);
    let head = clamped(anchor, 0, duration);
    lemma_zero(0);
    lemma_around_inside(v, zoom, head, duration);
    lemma_add_number(v.scroll, t);
}

proof fn lemma_finite_zoom(zoom: Bits)
    requires
        at_most(ONE, zoom),
        at_most(zoom, MILLION),
    ensures
        is_finite(zoom),
        !negative(zoom),
        !is_zero(zoom),
        pow2(149) <= magnitude(zoom) <= pow2(169),
{
    lemma_one();
    lemma_zero(zoom);
    lemma_pow2_pos(149);
    assert(unsigned(ONE) == ONE && unsigned(MILLION) == MILLION);
    lemma_magnitude_order(zoom, MILLION);
}

/// The visible part of a file is a positive number of seconds.
proof fn lemma_visible(duration: Bits, zoom: Bits)
    requires
        is_finite(duration),
        at_most(SHORTEST, duration),
        at_most(ONE, zoom),
        at_most(zoom, MILLION),
    ensures
        is_finite(fdiv(duration, zoom)),
        !is_zero(fdiv(duration, zoom)),
        !negative(fdiv(duration, zoom)),
        !negative(duration),
{
    lemma_finite_zoom(zoom);
    assert(magnitude(SHORTEST) == pow2(117)) by {
        lemma2_to64();
        assert(unsigned(SHORTEST) == SHORTEST);
        assert(last_digit(SHORTEST) == 94 && significand(SHORTEST) == 0x80_0000);
        lemma_pow2_adds(23, 94);
    }
    lemma_pow2_pos(117);
    lemma_zero(duration);
    assert(magnitude(duration) * pow2(149) >= magnitude(zoom)) by {
        lemma_pow2_adds(117, 149);
        lemma_pow2_strictly_increases(169, 266);
        assert(magnitude(duration) * pow2(149) >= pow2(117) * pow2(149)) by (nonlinear_arith)
            requires
                magnitude(duration) >= pow2(117),
        ;
    }
    lemma_shrinks(duration, zoom);
}

proof fn lemma_finite_scroll(v: Viewport, duration: Bits)
    requires
        is_finite(duration),
        at_most(SHORTEST, duration),
        v.inside(duration),
    ensures
        is_finite(v.scroll),
{
    lemma_visible(duration, v.zoom);
    lemma_finite_limit(duration, v.zoom);
    let limit = scroll_limit(duration, v.zoom);
    if value(v.scroll) < 0 {
        lemma_zero(0);
    }
    lemma_magnitude_order(v.scroll, limit);
    lemma_zero(v.scroll);
    lemma_zero(limit);
    lemma_zero(0);
}

/// The end of the scroll range is a finite number.
proof fn lemma_finite_limit(duration: Bits, zoom: Bits)
    requires
        is_finite(duration),
        at_most(SHORTEST, duration),
        at_most(ONE, zoom),
        at_most(zoom, MILLION),
    ensures
        is_finite(scroll_limit(duration, zoom)),
{
    lemma_visible(duration, zoom);
    let vis = fdiv(duration, zoom);
    lemma_finite_zoom(zoom);
    lemma_shrinks(duration, zoom);
    lemma_negated(vis);
    let x = value(duration) + value(negated(vis));
    crate::arith::lemma_sum(duration, negated(vis));
    assert(0 <= x <= magnitude(duration));
    crate::rounding::lemma_nearest_monotone(x as nat, magnitude(duration), 24);
    crate::arith::lemma_pattern_exact(duration);
    crate::arith::lemma_infinity();
    lemma_magnitude_order(duration, crate::single::INFINITY);
    assert(unsigned(crate::single::INFINITY) == crate::single::INFINITY);
    assert(is_finite(fsub(duration, vis)));
    lemma_zero(0);
}

#[verifier::rlimit(40)]
proof fn lemma_around_inside(v: Viewport, zoom: Bits, anchor: Bits, duration: Bits)
    requires
        is_finite(duration),
        at_most(SHORTEST, duration),
        v.inside(duration),
        is_finite(v.scroll),
        at_most(ONE, zoom),
        at_most(zoom, MILLION),
        is_finite(anchor),
    ensures
        v.around(zoom, anchor, duration).inside(duration),
{
    lemma_one();
    lemma_visible(duration, v.zoom);
    lemma_visible(duration, zoom);
    lemma_limit(duration, zoom);
    let before = fdiv(duration, v.zoom);
    let after = fdiv(duration, zoom);
    lemma_negated(v.scroll);
    lemma_add_number(anchor, negated(v.scroll));
    lemma_div_number(fsub(anchor, v.scroll), before);
    let place = clamped(fdiv(fsub(anchor, v.scroll), before), 0, ONE);
    assert(is_finite(place)) by {
        lemma_magnitude_order(place, ONE);
        lemma_zero(place);
        lemma_zero(0);
        lemma_pow2_pos(149);
        assert(unsigned(ONE) == ONE);
    }
    lemma_mul_number(place, after);
    let back = fmul(place, after);
    lemma_negated(back);
    lemma_add_number(anchor, negated(back));
}

/// A project brings back the part of the file that was on screen.
pub proof fn law_view_is_restored(v: Viewport, duration: Bits)
    requires
        is_finite(duration),
        at_most(SHORTEST, duration),
        v.inside(duration),
    ensures
        Viewport::restored(v.zoom, v.scroll, duration) == v,
{
    lemma_zero(0);
    let shortest: Bits = SHORTEST;
    assert(unsigned(shortest) == shortest && significand(shortest) > 0);
    lemma_zero(shortest);
    lemma_finite_zoom(v.zoom);
    lemma_one();
    lemma_shrinks(duration, v.zoom);
    let part = fdiv(duration, v.zoom);
    lemma_negated(part);
    lemma_magnitude_order(duration, INFINITY);
    lemma_sum_down(duration, negated(part));
}

} // verus!
