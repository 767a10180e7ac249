use vstd::prelude::*;
use crate::units::{max_int, min_int, saturate, to_unit, Vec2};

verus! {

/// How far one notch of the wheel scrolls.
pub const WHEEL_STEP: i32 = 20;

/// How far the content of a view can be scrolled at most: by what the
/// content is higher than the view, and not at all where it is not higher.
pub open spec fn max_scroll(content_height: int, view_height: int) -> int {
    max_int(content_height - view_height, 0)
}

/// The scroll offset after the wheel has turned by `delta`: the wheel
/// moves the offset by `WHEEL_STEP` for each of its units, against its
/// direction, and the offset stays between zero and the most that the
/// content can be scrolled.
pub open spec fn scrolled(offset: int, delta: int, content_height: int, view_height: int) -> int {
    min_int(max_int(offset - delta * WHEEL_STEP, 0), max_scroll(content_height, view_height))
}

/// A view onto one child that is higher than the view.
pub struct Scrollable<W> {
    pub child: W,
    /// How far the content is scrolled, on each axis.
    pub offset: Vec2,
    /// The size of the content, as last painted.
    pub child_size: Vec2,
}

impl<W: Clone> Clone for Scrollable<W> {
    fn clone(&self) -> (s: Self)
        ensures
            s.offset == self.offset,
            s.child_size == self.child_size,
            cloned::<W>(self.child, s.child),
    {
        Scrollable { child: self.child.clone(), offset: self.offset, child_size: self.child_size }
    }
}

impl<W> Scrollable<W> {
    /// A view onto `child`, not scrolled.
    pub fn new(child: W) -> (s: Self)
        ensures
            s.child == child,
            s.offset == Vec2::spec_zero(),
            s.child_size == Vec2::spec_zero(),
    {
        Scrollable { child, offset: Vec2::zero(), child_size: Vec2::zero() }
    }

    /// Scrolls by a turn `delta` of the wheel, in a view of the height
    /// `view_height`.
    pub fn scroll(&mut self, delta: Vec2, view_height: i32)
        ensures
            final(self).offset.y == saturate(
                scrolled(
                    old(self).offset.y as int,
                    delta.y as int,
                    old(self).child_size.y as int,
                    view_height as int,
                ),
            ),
            final(self).offset.x == old(self).offset.x,
            final(self).child_size == old(self).child_size,
            final(self).child == old(self).child,
            0 <= final(self).offset.y,
    {
        let turned: i128 = delta.y as i128;
        assert(-0x8000_0000 * 20 <= turned * WHEEL_STEP <= 0x8000_0000 * 20) by (nonlinear_arith)
            requires
                -0x8000_0000 <= turned <= 0x8000_0000,
                WHEEL_STEP == 20,
        ;
        let moved: i128 = self.offset.y as i128 - turned * WHEEL_STEP as i128;
        let floor: i128 = if moved > 0 {
            moved
        } else {
            0
        };
        let room: i128 = if self.child_size.y as i128 - view_height as i128 > 0 {
            self.child_size.y as i128 - view_height as i128
        } else {
            0
        };
        let y: i128 = if floor < room {
            floor
        } else {
            room
        };
        self.offset.y = to_unit(y);
    }

    /// Where the child is put in a view at `view_origin`: the content
    /// begins as far above and to the left of the view as it is scrolled.
    pub fn child_origin(&self, view_origin: Vec2) -> (origin: Vec2)
        ensures
            origin == view_origin.spec_minus(self.offset),
    {
        view_origin.minus(self.offset)
    }
}

} // verus!
