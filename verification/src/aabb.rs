use crate::coordinates::{Coord2D, Pixel16, ONE};
use vstd::prelude::*;

verus! {

/// A 2D axis-aligned bounding box over pixels.
///
/// It stores nothing but the minimum and maximum corner. `insert` widens it
/// around discrete pixels; `fit_in_aabb` maps continuous points into it.
#[derive(Clone, Copy, Debug, PartialEq, Eq, Structural)]
pub struct AABB {
    pub min: Pixel16,
    pub max: Pixel16,
}

/// The smaller of two pixel coordinates.
pub open spec fn lesser(a: u16, b: u16) -> u16 {
    if a <= b {
        a
    } else {
        b
    }
}

/// The larger of two pixel coordinates.
pub open spec fn greater(a: u16, b: u16) -> u16 {
    if a >= b {
        a
    } else {
        b
    }
}

impl AABB {
    /// The box is well-formed: `min <= max` on both axes.
    pub open spec fn wf(&self) -> bool {
        self.min.x <= self.max.x && self.min.y <= self.max.y
    }

    /// Pixel `p` lies in the box, borders included.
    pub open spec fn contains(&self, p: Pixel16) -> bool {
        self.min.x <= p.x <= self.max.x && self.min.y <= p.y <= self.max.y
    }

    /// The continuous point `c` lies in the box, borders included: each
    /// coordinate lies between the coordinates of the box's corners.
    pub open spec fn holds(&self, c: Coord2D) -> bool {
        &&& self.min.x * ONE <= c.x <= self.max.x * ONE
        &&& self.min.y * ONE <= c.y <= self.max.y * ONE
    }

    /// Width of the box in pixels (negative for an ill-formed box).
    pub open spec fn extent_x(&self) -> int {
        self.max.x - self.min.x
    }

    /// Height of the box in pixels (negative for an ill-formed box).
    pub open spec fn extent_y(&self) -> int {
        self.max.y - self.min.y
    }

    /// The box widened by `thing`: each corner moves only as far as needed,
    /// and both are computed from the corners before the update.
    pub open spec fn widened(&self, thing: Pixel16) -> AABB {
        AABB {
            min: Pixel16 { x: lesser(self.min.x, thing.x), y: lesser(self.min.y, thing.y) },
            max: Pixel16 { x: greater(self.max.x, thing.x), y: greater(self.max.y, thing.y) },
        }
    }

    /// The box is well-formed and lies on a screen of `width` by `height`
    /// pixels.
    pub open spec fn on_screen(&self, width: u16, height: u16) -> bool {
        self.wf() && self.max.x < width && self.max.y < height
    }

    /// Tells whether the box is well-formed and lies on a screen of `width`
    /// by `height` pixels, so that every pixel in the box is a pixel of the
    /// screen.
    pub fn fits_screen(&self, width: u16, height: u16) -> (b: bool)
        ensures
            b == self.on_screen(width, height),
            b ==> forall|p: Pixel16| #[trigger] self.contains(p) ==> p.x < width && p.y < height,
    {
        self.min.x <= self.max.x && self.min.y <= self.max.y && self.max.x < width && self.max.y
            < height
    }

    /// Extends the box to hold `thing`. The pixel itself is not stored.
    ///
    /// The box never shrinks, and `thing` lies in it afterwards.
    pub fn insert(&mut self, thing: Pixel16)
        ensures
            *final(self) == old(self).widened(thing),
            final(self).extent_x() >= old(self).extent_x(),
            final(self).extent_y() >= old(self).extent_y(),
            final(self).contains(thing),
            final(self).wf(),
    {
        let min = Pixel16 {
            x: if thing.x < self.min.x { thing.x } else { self.min.x },
            y: if thing.y < self.min.y { thing.y } else { self.min.y },
        };
        let max = Pixel16 {
            x: if thing.x > self.max.x { thing.x } else { self.max.x },
            y: if thing.y > self.max.y { thing.y } else { self.max.y },
        };
        self.min = min;
        self.max = max;
    }
}

} // verus!
