use vstd::prelude::*;
use crate::units::{max_int, min_int, Vec2};

verus! {

/// An axis-aligned rectangle: its top-left corner and its extent.
#[derive(Debug, Copy, Clone, PartialEq, Eq, Structural)]
pub struct Rect {
    pub origin: Vec2,
    pub size: Vec2,
}

impl Rect {
    /// `p` lies inside the rectangle, its four edges included.
    pub open spec fn spec_contains(&self, p: Vec2) -> bool {
        &&& self.origin.x <= p.x <= self.origin.x + self.size.x
        &&& self.origin.y <= p.y <= self.origin.y + self.size.y
    }

    /// The two rectangles overlap: on each axis, each of them begins
    /// before the other one ends. Two that only touch along an edge do
    /// not; a rectangle without extent does where it lies strictly inside
    /// the other one.
    pub open spec fn spec_intersects(&self, other: &Rect) -> bool {
        &&& self.origin.x < other.origin.x + other.size.x
        &&& self.origin.x + self.size.x > other.origin.x
        &&& self.origin.y < other.origin.y + other.size.y
        &&& self.origin.y + self.size.y > other.origin.y
    }

    /// The corner of the overlap: the larger of the two origins on each axis.
    pub open spec fn overlap_origin(self, other: Rect) -> Vec2 {
        Vec2 {
            x: max_int(self.origin.x as int, other.origin.x as int) as i32,
            y: max_int(self.origin.y as int, other.origin.y as int) as i32,
        }
    }

    /// The extent of the overlap on the x axis: never negative, zero where
    /// the rectangles do not overlap.
    pub open spec fn overlap_width(self, other: Rect) -> int {
        max_int(
            min_int(self.origin.x + self.size.x, other.origin.x + other.size.x) - max_int(
                self.origin.x as int,
                other.origin.x as int,
            ),
            0,
        )
    }

    /// The extent of the overlap on the y axis.
    pub open spec fn overlap_height(self, other: Rect) -> int {
        max_int(
            min_int(self.origin.y + self.size.y, other.origin.y + other.size.y) - max_int(
                self.origin.y as int,
                other.origin.y as int,
            ),
            0,
        )
    }

    /// The part that both rectangles cover, with an extent of zero on an
    /// axis along which they do not overlap. Where `self` has a negative
    /// extent the result has none: it is zero there.
    pub open spec fn spec_intersection(&self, other: &Rect) -> Rect {
        Rect {
            origin: self.overlap_origin(*other),
            size: Vec2 {
                x: self.overlap_width(*other) as i32,
                y: self.overlap_height(*other) as i32,
            },
        }
    }

    pub fn new(origin: Vec2, size: Vec2) -> (r: Rect)
        ensures
            r == (Rect { origin, size }),
    {
        Rect { origin, size }
    }

    #[verifier::when_used_as_spec(spec_contains)]
    pub fn contains(&self, p: Vec2) -> (inside: bool)
        ensures
            inside == self.spec_contains(p),
    {
        let min_x = self.origin.x as i64;
        let min_y = self.origin.y as i64;
        let max_x = self.origin.x as i64 + self.size.x as i64;
        let max_y = self.origin.y as i64 + self.size.y as i64;
        p.x as i64 >= min_x && p.x as i64 <= max_x && p.y as i64 >= min_y && p.y as i64 <= max_y
    }

    #[verifier::when_used_as_spec(spec_intersects)]
    pub fn intersects(&self, other: &Rect) -> (overlap: bool)
        ensures
            overlap == self.spec_intersects(other),
    {
        (self.origin.x as i64) < other.origin.x as i64 + other.size.x as i64
            && self.origin.x as i64 + self.size.x as i64 > other.origin.x as i64
            && (self.origin.y as i64) < other.origin.y as i64 + other.size.y as i64
            && self.origin.y as i64 + self.size.y as i64 > other.origin.y as i64
    }

    #[verifier::when_used_as_spec(spec_intersection)]
    pub fn intersection(&self, other: &Rect) -> (r: Rect)
        ensures
            r == self.spec_intersection(other),
            0 <= self.overlap_width(*other) <= i32::MAX,
            0 <= self.overlap_height(*other) <= i32::MAX,
    {
        let left = if self.origin.x >= other.origin.x {
            self.origin.x
        } else {
            other.origin.x
        };
        let top = if self.origin.y >= other.origin.y {
            self.origin.y
        } else {
            other.origin.y
        };
        let self_right = self.origin.x as i64 + self.size.x as i64;
        let other_right = other.origin.x as i64 + other.size.x as i64;
        let right = if self_right <= other_right {
            self_right
        } else {
            other_right
        };
        let self_bottom = self.origin.y as i64 + self.size.y as i64;
        let other_bottom = other.origin.y as i64 + other.size.y as i64;
        let bottom = if self_bottom <= other_bottom {
            self_bottom
        } else {
            other_bottom
        };
        let width = if right - left as i64 > 0 {
            right - left as i64
        } else {
            0
        };
        let height = if bottom - top as i64 > 0 {
            bottom - top as i64
        } else {
            0
        };
        Rect { origin: Vec2 { x: left, y: top }, size: Vec2 { x: width as i32, y: height as i32 } }
    }
}

} // verus!
