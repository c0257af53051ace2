use crate::aabb::AABB;
use crate::coordinates::{Coord2D, ONE};
use crate::error::RenderError;
use crate::fixed::{lemma_div_between, lemma_mul_le, mul_div_floor};
use vstd::prelude::*;

verus! {

/// The coordinate of `p` on the x axis or on the y axis.
pub open spec fn component(p: Coord2D, x_axis: bool) -> int {
    if x_axis {
        p.x as int
    } else {
        p.y as int
    }
}

/// The least coordinate on one axis among the first `n` points.
pub open spec fn least_upto(pts: Seq<Coord2D>, x_axis: bool, n: int) -> int
    decreases n,
{
    if n <= 1 {
        component(pts[0], x_axis)
    } else {
        let rest = least_upto(pts, x_axis, n - 1);
        let c = component(pts[n - 1], x_axis);
        if c < rest {
            c
        } else {
            rest
        }
    }
}

/// The greatest coordinate on one axis among the first `n` points.
pub open spec fn greatest_upto(pts: Seq<Coord2D>, x_axis: bool, n: int) -> int
    decreases n,
{
    if n <= 1 {
        component(pts[0], x_axis)
    } else {
        let rest = greatest_upto(pts, x_axis, n - 1);
        let c = component(pts[n - 1], x_axis);
        if c > rest {
            c
        } else {
            rest
        }
    }
}

/// The least coordinate of the point set on one axis.
pub open spec fn least(pts: Seq<Coord2D>, x_axis: bool) -> int {
    least_upto(pts, x_axis, pts.len() as int)
}

/// The greatest coordinate of the point set on one axis.
pub open spec fn greatest(pts: Seq<Coord2D>, x_axis: bool) -> int {
    greatest_upto(pts, x_axis, pts.len() as int)
}

/// The extent of the point set's bounding rectangle on one axis.
pub open spec fn span(pts: Seq<Coord2D>, x_axis: bool) -> int {
    greatest(pts, x_axis) - least(pts, x_axis)
}

/// The extent of the box on one axis, in fixed-point units.
pub open spec fn room(aabb: AABB, x_axis: bool) -> int {
    if x_axis {
        aabb.extent_x() * ONE
    } else {
        aabb.extent_y() * ONE
    }
}

/// The point set has no extent on either axis, so no scale fits it.
pub open spec fn degenerate(pts: Seq<Coord2D>) -> bool {
    span(pts, true) == 0 && span(pts, false) == 0
}

/// The axis that decides the scale is x (else y): the axis on which the
/// point set, scaled to fill the box, leaves the other axis inside the box.
/// An axis without extent never decides.
pub open spec fn x_decides(aabb: AABB, pts: Seq<Coord2D>) -> bool {
    span(pts, false) == 0 || (span(pts, true) != 0 && room(aabb, true) * span(pts, false) <= room(
        aabb,
        false,
    ) * span(pts, true))
}

/// The uniform scale factor of the fit as a fraction `(numerator,
/// denominator)`: the smaller of the two ratios of box extent to point-set
/// extent.
pub open spec fn fit_scale(aabb: AABB, pts: Seq<Coord2D>) -> (int, int) {
    if x_decides(aabb, pts) {
        (room(aabb, true), span(pts, true))
    } else {
        (room(aabb, false), span(pts, false))
    }
}

/// Where the fit sends the coordinate `c` on one axis: the distance to the
/// least coordinate is scaled, rounded down to the fixed-point grid, and
/// laid off from the box's minimum corner.
pub open spec fn fit_component(aabb: AABB, pts: Seq<Coord2D>, x_axis: bool, c: int) -> int {
    let scale = fit_scale(aabb, pts);
    let corner = if x_axis {
        aabb.min.x
    } else {
        aabb.min.y
    };
    corner * ONE + ((c - least(pts, x_axis)) * scale.0) / scale.1
}

/// Where the fit sends the point `p`. Both axes are scaled by the same
/// factor.
pub open spec fn fit_point(aabb: AABB, pts: Seq<Coord2D>, p: Coord2D) -> Coord2D {
    Coord2D {
        x: fit_component(aabb, pts, true, p.x as int) as i64,
        y: fit_component(aabb, pts, false, p.y as int) as i64,
    }
}

/// The point set mapped into the box, point for point in the same order.
pub open spec fn fitted(aabb: AABB, pts: Seq<Coord2D>) -> Seq<Coord2D> {
    Seq::new(pts.len(), |i: int| fit_point(aabb, pts, pts[i]))
}

/// What fitting yields: the mapped points, or the reason why there are none.
/// An empty point set maps to an empty one.
pub open spec fn fit_outcome(aabb: AABB, pts: Seq<Coord2D>) -> Result<Seq<Coord2D>, RenderError> {
    if !aabb.wf() {
        Err(RenderError::InvalidBox)
    } else if pts.len() == 0 {
        Ok(Seq::empty())
    } else if degenerate(pts) {
        Err(RenderError::DegenerateInput)
    } else {
        Ok(fitted(aabb, pts))
    }
}

/// The extrema bound every point, and they are tight from the first point
/// on.
pub proof fn lemma_extrema(pts: Seq<Coord2D>, x_axis: bool, n: int)
    requires
        1 <= n <= pts.len(),
    ensures
        forall|j: int|
            0 <= j < n ==> least_upto(pts, x_axis, n) <= component(#[trigger] pts[j], x_axis)
                <= greatest_upto(pts, x_axis, n),
        exists|j: int| 0 <= j < n && component(#[trigger] pts[j], x_axis) == least_upto(pts, x_axis, n),
        exists|j: int|
            0 <= j < n && component(#[trigger] pts[j], x_axis) == greatest_upto(pts, x_axis, n),
    decreases n,
{
    if n > 1 {
        lemma_extrema(pts, x_axis, n - 1);
        let a = choose|j: int|
            0 <= j < n - 1 && component(#[trigger] pts[j], x_axis) == least_upto(
                pts,
                x_axis,
                n - 1,
            );
        let b = choose|j: int|
            0 <= j < n - 1 && component(#[trigger] pts[j], x_axis) == greatest_upto(
                pts,
                x_axis,
                n - 1,
            );
        let c = component(pts[n - 1], x_axis);
        if c < least_upto(pts, x_axis, n - 1) {
            assert(component(pts[n - 1], x_axis) == least_upto(pts, x_axis, n));
        } else {
            assert(component(pts[a], x_axis) == least_upto(pts, x_axis, n));
        }
        if c > greatest_upto(pts, x_axis, n - 1) {
            assert(component(pts[n - 1], x_axis) == greatest_upto(pts, x_axis, n));
        } else {
            assert(component(pts[b], x_axis) == greatest_upto(pts, x_axis, n));
        }
    } else {
        assert(component(pts[0], x_axis) == least_upto(pts, x_axis, n));
    }
}

/// The fit keeps the aspect ratio and is as large as the box allows: the
/// bounding rectangle of the point set, scaled by the one factor, exceeds
/// the box on neither axis and fills it exactly on at least one.
pub proof fn lemma_fit_scale(aabb: AABB, pts: Seq<Coord2D>)
    requires
        aabb.wf(),
        pts.len() > 0,
        !degenerate(pts),
    ensures
        fit_scale(aabb, pts).0 >= 0,
        fit_scale(aabb, pts).1 > 0,
        span(pts, true) >= 0,
        span(pts, false) >= 0,
        span(pts, true) * fit_scale(aabb, pts).0 <= room(aabb, true) * fit_scale(aabb, pts).1,
        span(pts, false) * fit_scale(aabb, pts).0 <= room(aabb, false) * fit_scale(aabb, pts).1,
        span(pts, true) * fit_scale(aabb, pts).0 == room(aabb, true) * fit_scale(aabb, pts).1
            || span(pts, false) * fit_scale(aabb, pts).0 == room(aabb, false) * fit_scale(
            aabb,
            pts,
        ).1,
{
    lemma_extrema(pts, true, pts.len() as int);
    lemma_extrema(pts, false, pts.len() as int);
    let wx = span(pts, true);
    let wy = span(pts, false);
    let ex = room(aabb, true);
    let ey = room(aabb, false);
    assert(wx >= 0 && wy >= 0);
    assert(ex >= 0 && ey >= 0);
    assert(wx * ex == ex * wx && wy * ey == ey * wy && wy * ex == ex * wy && wx * ey == ey * wx)
        by (nonlinear_arith);
    assert(ey * wx >= 0 && ex * wy >= 0) by (nonlinear_arith)
        requires
            wx >= 0,
            wy >= 0,
            ex >= 0,
            ey >= 0,
    ;
}

/// The fit sends every coordinate between the extrema of the point set to a
/// coordinate between the corners of the box.
pub proof fn lemma_fit_component_in_box(aabb: AABB, pts: Seq<Coord2D>, x_axis: bool, c: int)
    requires
        aabb.wf(),
        pts.len() > 0,
        !degenerate(pts),
        least(pts, x_axis) <= c <= greatest(pts, x_axis),
    ensures
        0 <= (c - least(pts, x_axis)) * fit_scale(aabb, pts).0 <= room(aabb, x_axis) * fit_scale(
            aabb,
            pts,
        ).1,
        x_axis ==> aabb.min.x * ONE <= fit_component(aabb, pts, x_axis, c) <= aabb.max.x * ONE,
        !x_axis ==> aabb.min.y * ONE <= fit_component(aabb, pts, x_axis, c) <= aabb.max.y * ONE,
{
    lemma_fit_scale(aabb, pts);
    let scale = fit_scale(aabb, pts);
    let d = c - least(pts, x_axis);
    lemma_mul_le(d, scale.0, span(pts, x_axis), scale.0);
    lemma_div_between(d * scale.0, scale.1, 0, room(aabb, x_axis));
}

/// The fit lays the least coordinate of the point set on the box's minimum
/// corner on both axes, and on the axis that decides the scale it lays the
/// greatest coordinate on the maximum corner.
pub proof fn lemma_fit_anchors(aabb: AABB, pts: Seq<Coord2D>)
    requires
        aabb.wf(),
        pts.len() > 0,
        !degenerate(pts),
    ensures
        fit_component(aabb, pts, true, least(pts, true)) == aabb.min.x * ONE,
        fit_component(aabb, pts, false, least(pts, false)) == aabb.min.y * ONE,
        x_decides(aabb, pts) ==> fit_component(aabb, pts, true, greatest(pts, true)) == aabb.max.x
            * ONE,
        !x_decides(aabb, pts) ==> fit_component(aabb, pts, false, greatest(pts, false))
            == aabb.max.y * ONE,
{
    lemma_fit_scale(aabb, pts);
    let scale = fit_scale(aabb, pts);
    assert(0 * scale.0 == 0) by (nonlinear_arith);
    assert(0int / scale.1 == 0) by (nonlinear_arith)
        requires
            scale.1 > 0,
    ;
    assert((scale.1 * scale.0) / scale.1 == scale.0) by (nonlinear_arith)
        requires
            scale.1 > 0,
    ;
}

/// Every point of a fitted point set lies in the box.
pub proof fn lemma_fit_in_box(aabb: AABB, pts: Seq<Coord2D>)
    requires
        aabb.wf(),
        pts.len() > 0,
        !degenerate(pts),
    ensures
        forall|i: int| 0 <= i < pts.len() ==> aabb.holds(#[trigger] fitted(aabb, pts)[i]),
{
    lemma_extrema(pts, true, pts.len() as int);
    lemma_extrema(pts, false, pts.len() as int);
    assert forall|i: int| 0 <= i < pts.len() implies aabb.holds(
        #[trigger] fitted(aabb, pts)[i],
    ) by {
        let p = pts[i];
        lemma_fit_component_in_box(aabb, pts, true, p.x as int);
        lemma_fit_component_in_box(aabb, pts, false, p.y as int);
    }
}

impl AABB {
    /// Maps the points of `data` into the box: one uniform scale and one
    /// offset are applied to every point, so that the least coordinates of
    /// the point set land on the box's minimum corner and the point set
    /// fills the box on at least one axis. The order of the points is kept
    /// and the box is left as it is.
    ///
    /// The arithmetic is exact, so every mapped point lies in the box
    /// without any safety margin. A point set without extent on both axes
    /// cannot be scaled and is an error, as is an ill-formed box.
    pub fn fit_in_aabb(&mut self, data: &[Coord2D]) -> (r: Result<Vec<Coord2D>, RenderError>)
        ensures
            *final(self) == *old(self),
            match r {
                Ok(v) => fit_outcome(*old(self), data@) == Ok::<Seq<Coord2D>, RenderError>(v@),
                Err(e) => fit_outcome(*old(self), data@) == Err::<Seq<Coord2D>, RenderError>(e),
            },
            r is Ok ==> forall|i: int|
                0 <= i < r->Ok_0@.len() ==> old(self).holds(#[trigger] r->Ok_0@[i]),
    {
        let aabb = *self;
        if aabb.min.x > aabb.max.x || aabb.min.y > aabb.max.y {
            return Err(RenderError::InvalidBox);
        }
        let mut out: Vec<Coord2D> = Vec::new();
        if data.len() == 0 {
            return Ok(out);
        }
        let mut lo_x: i64 = data[0].x;
        let mut hi_x: i64 = data[0].x;
        let mut lo_y: i64 = data[0].y;
        let mut hi_y: i64 = data[0].y;
        let mut i: usize = 1;
        while i < data.len()
            invariant
                1 <= i <= data.len(),
                lo_x == least_upto(data@, true, i as int),
                hi_x == greatest_upto(data@, true, i as int),
                lo_y == least_upto(data@, false, i as int),
                hi_y == greatest_upto(data@, false, i as int),
            decreases data.len() - i,
        {
            let p = data[i];
            if p.x < lo_x {
                lo_x = p.x;
            }
            if p.x > hi_x {
                hi_x = p.x;
            }
            if p.y < lo_y {
                lo_y = p.y;
            }
            if p.y > hi_y {
                hi_y = p.y;
            }
            i = i + 1;
        }
        proof {
            lemma_extrema(data@, true, data.len() as int);
            lemma_extrema(data@, false, data.len() as int);
        }
        let wx: u64 = (hi_x as i128 - lo_x as i128) as u64;
        let wy: u64 = (hi_y as i128 - lo_y as i128) as u64;
        if wx == 0 && wy == 0 {
            return Err(RenderError::DegenerateInput);
        }
        let ex: u64 = ((aabb.max.x - aabb.min.x) as u64) * 0x1_0000_0000;
        let ey: u64 = ((aabb.max.y - aabb.min.y) as u64) * 0x1_0000_0000;
        proof {
            lemma_mul_le(ex as int, wy as int, 0x1_0000_0000_0000, u64::MAX as int);
            lemma_mul_le(ey as int, wx as int, 0x1_0000_0000_0000, u64::MAX as int);
        }
        let x_decides = wy == 0 || (wx != 0 && (ex as u128) * (wy as u128) <= (ey as u128) * (
        wx as u128));
        let num: u64 = if x_decides { ex } else { ey };
        let den: u64 = if x_decides { wx } else { wy };
        proof {
            lemma_fit_scale(aabb, data@);
            assert(fit_scale(aabb, data@) == (num as int, den as int));
        }
        let mut j: usize = 0;
        while j < data.len()
            invariant
                aabb.wf(),
                data.len() > 0,
                !degenerate(data@),
                j <= data.len(),
                lo_x == least(data@, true),
                lo_y == least(data@, false),
                fit_scale(aabb, data@) == (num as int, den as int),
                den > 0,
                out@.len() == j,
                forall|k: int| 0 <= k < j ==> out@[k] == fit_point(aabb, data@, #[trigger] data@[k]),
                forall|k: int| 0 <= k < j ==> aabb.holds(#[trigger] out@[k]),
                forall|k: int|
                    0 <= k < data.len() ==> least(data@, true) <= component(
                        #[trigger] data@[k],
                        true,
                    ) <= greatest(data@, true),
                forall|k: int|
                    0 <= k < data.len() ==> least(data@, false) <= component(
                        #[trigger] data@[k],
                        false,
                    ) <= greatest(data@, false),
            decreases data.len() - j,
        {
            let p = data[j];
            proof {
                assert(least(data@, true) <= component(data@[j as int], true) <= greatest(
                    data@,
                    true,
                ));
                assert(least(data@, false) <= component(data@[j as int], false) <= greatest(
                    data@,
                    false,
                ));
                lemma_fit_component_in_box(aabb, data@, true, p.x as int);
                lemma_fit_component_in_box(aabb, data@, false, p.y as int);
                lemma_mul_le(room(aabb, true), den as int, u64::MAX as int, den as int);
                lemma_mul_le(room(aabb, false), den as int, u64::MAX as int, den as int);
            }
            let dx: i128 = p.x as i128 - lo_x as i128;
            let dy: i128 = p.y as i128 - lo_y as i128;
            let fx: i128 = mul_div_floor(dx, num as i128, den);
            let fy: i128 = mul_div_floor(dy, num as i128, den);
            let x: i64 = ((aabb.min.x as i128) * 0x1_0000_0000 + fx) as i64;
            let y: i64 = ((aabb.min.y as i128) * 0x1_0000_0000 + fy) as i64;
            out.push(Coord2D { x, y });
            j = j + 1;
        }
        assert(out@ =~= fitted(aabb, data@));
        Ok(out)
    }
}

} // verus!
