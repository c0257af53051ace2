use crate::binary32::{fixed_from_bits, fixed_of_bits};
use crate::error::RenderError;
use crate::fixed::{floor_split, lemma_product_bound};
use vstd::prelude::*;

verus! {

/// The fixed-point representation of `1.0`: coordinates carry 32 fractional
/// bits.
pub const ONE: i64 = 0x1_0000_0000;

/// A concrete pixel on the screen.
#[derive(Clone, Copy, Debug, PartialEq, Eq, Structural)]
pub struct Pixel16 {
    pub x: u16,
    pub y: u16,
}

/// A point of an abstract, continuous 2D coordinate system.
///
/// Each component is a signed fixed-point number: the stored integer `x`
/// stands for the real number `x / 2^32`.
#[derive(Clone, Copy, Debug, PartialEq, Eq, Structural)]
pub struct Coord2D {
    pub x: i64,
    pub y: i64,
}

/// The fixed-point number nearest to `v`: `v` itself unless it lies beyond
/// the 64-bit range.
pub open spec fn saturated(v: int) -> i64 {
    if v < i64::MIN {
        i64::MIN
    } else if v > i64::MAX {
        i64::MAX
    } else {
        v as i64
    }
}

/// The fixed-point number nearest to `v`.
fn saturate(v: i128) -> (r: i64)
    ensures
        r == saturated(v as int),
{
    if v < i64::MIN as i128 {
        i64::MIN
    } else if v > i64::MAX as i128 {
        i64::MAX
    } else {
        v as i64
    }
}

/// The point that a pair of IEEE 754 single-precision bit patterns encodes,
/// or the reason why there is none. The x coordinate is looked at first.
pub open spec fn coord_of_bits(x_bits: u32, y_bits: u32) -> Result<Coord2D, RenderError> {
    match fixed_of_bits(x_bits) {
        Err(e) => Err(e),
        Ok(x) => match fixed_of_bits(y_bits) {
            Err(e) => Err(e),
            Ok(y) => Ok(Coord2D { x: x as i64, y: y as i64 }),
        },
    }
}

impl Coord2D {
    /// Reads a point from the bit patterns of two IEEE 754 single-precision
    /// numbers, each rounded towards zero to a multiple of `2^-32`.
    ///
    /// A NaN is rejected, and so is a number that is infinite or does not
    /// fit the fixed-point range.
    pub fn from_bits(x_bits: u32, y_bits: u32) -> (r: Result<Coord2D, RenderError>)
        ensures
            r == coord_of_bits(x_bits, y_bits),
    {
        match fixed_from_bits(x_bits) {
            Err(e) => Err(e),
            Ok(x) => match fixed_from_bits(y_bits) {
                Err(e) => Err(e),
                Ok(y) => Ok(Coord2D { x, y }),
            },
        }
    }

    /// The componentwise sum, saturating at the ends of the range.
    pub open spec fn plus(self, other: Coord2D) -> Coord2D {
        Coord2D { x: saturated(self.x + other.x), y: saturated(self.y + other.y) }
    }

    /// The componentwise difference, saturating at the ends of the range.
    pub open spec fn minus(self, other: Coord2D) -> Coord2D {
        Coord2D { x: saturated(self.x - other.x), y: saturated(self.y - other.y) }
    }

    /// Both components scaled by the fixed-point number `factor`, rounded
    /// down and saturating at the ends of the range.
    pub open spec fn times(self, factor: i64) -> Coord2D {
        Coord2D {
            x: saturated((self.x * factor) / (ONE as int)),
            y: saturated((self.y * factor) / (ONE as int)),
        }
    }

    /// Componentwise addition.
    pub fn add(self, other: Coord2D) -> (r: Coord2D)
        ensures
            r == self.plus(other),
    {
        Coord2D {
            x: saturate(self.x as i128 + other.x as i128),
            y: saturate(self.y as i128 + other.y as i128),
        }
    }

    /// Componentwise addition in place.
    pub fn add_assign(&mut self, other: Coord2D)
        ensures
            *final(self) == old(self).plus(other),
    {
        *self = Coord2D {
            x: saturate(self.x as i128 + other.x as i128),
            y: saturate(self.y as i128 + other.y as i128),
        };
    }

    /// Componentwise subtraction.
    pub fn sub(self, other: Coord2D) -> (r: Coord2D)
        ensures
            r == self.minus(other),
    {
        Coord2D {
            x: saturate(self.x as i128 - other.x as i128),
            y: saturate(self.y as i128 - other.y as i128),
        }
    }

    /// Componentwise subtraction in place.
    pub fn sub_assign(&mut self, other: Coord2D)
        ensures
            *final(self) == old(self).minus(other),
    {
        *self = Coord2D {
            x: saturate(self.x as i128 - other.x as i128),
            y: saturate(self.y as i128 - other.y as i128),
        };
    }

    /// Uniform scaling by the fixed-point number `factor`.
    pub fn mul(self, factor: i64) -> (r: Coord2D)
        ensures
            r == self.times(factor),
    {
        proof {
            lemma_product_bound(self.x as int, factor as int);
            lemma_product_bound(self.y as int, factor as int);
        }
        let px: i128 = (self.x as i128) * (factor as i128);
        let py: i128 = (self.y as i128) * (factor as i128);
        Coord2D { x: saturate(floor_split(px).0), y: saturate(floor_split(py).0) }
    }

    /// The continuous point at the corner of pixel `p`.
    pub fn from_pixel(p: Pixel16) -> (c: Coord2D)
        ensures
            c.x == p.x * ONE,
            c.y == p.y * ONE,
    {
        Coord2D { x: (p.x as i64) * ONE, y: (p.y as i64) * ONE }
    }
}

} // verus!
