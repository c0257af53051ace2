use crate::aabb::AABB;
use crate::coordinates::{Coord2D, Pixel16};
use crate::error::RenderError;
use crate::raster::{
    all_in_box, polyline_outcome, rasterize_polyline, rasterize_segment, segment_outcome,
    segment_writes, PixelWrite,
};
use vstd::prelude::*;

verus! {

/// The color in which `draw_lines` draws.
pub const LINE_COLOR: u32 = 0xFAFA_FAFA;

/// Draws antialiased lines through a pixel sink.
///
/// The sink is called once for each pixel write, with the pixel's
/// coordinates and its intensity-scaled color. It is borrowed for the time
/// of a call and returns nothing.
pub struct Renderer<F: FnMut(u16, u16, u32)> {
    pub pixel_col_fn: F,
}

/// Whether a drawing call succeeds: the outcome without the writes.
pub open spec fn verdict(outcome: Result<Seq<PixelWrite>, RenderError>) -> Result<
    (),
    RenderError,
> {
    match outcome {
        Ok(_) => Ok(()),
        Err(e) => Err(e),
    }
}

impl<F: FnMut(u16, u16, u32)> Renderer<F> {
    /// The sink may be called on every pixel of the box, with any color.
    pub open spec fn accepts(&self, aabb: AABB) -> bool {
        forall|x: u16, y: u16, color: u32|
            aabb.contains(Pixel16 { x, y }) ==> #[trigger] call_requires(
                self.pixel_col_fn,
                (x, y, color),
            )
    }

    /// Draws the polyline through `data` in `LINE_COLOR`: one antialiased
    /// segment for each pair of neighbours, in the order of the points.
    ///
    /// The writes that `rasterize_polyline` lists for the same arguments are
    /// handed to the sink one by one, each of them. The sink is never called
    /// on a pixel outside the box, and not at all where the result is an
    /// error.
    pub fn draw_lines(&mut self, aabb: AABB, data: Vec<Coord2D>) -> (r: Result<(), RenderError>)
        requires
            old(self).accepts(aabb),
        ensures
            r == verdict(polyline_outcome(aabb, data@, LINE_COLOR)),
            r is Ok ==> final(self).received(polyline_outcome(aabb, data@, LINE_COLOR)->Ok_0),
            final(self).accepts(aabb),
    {
        self.draw_polyline(aabb, data.as_slice(), LINE_COLOR)
    }

    /// Draws the polyline through `data` in `color`: one antialiased segment
    /// for each pair of neighbours, in the order of the points.
    ///
    /// The writes that `rasterize_polyline` lists for the same arguments are
    /// handed to the sink one by one, each of them. The sink is never called
    /// on a pixel outside the box, and not at all where the result is an
    /// error.
    pub fn draw_polyline(&mut self, aabb: AABB, data: &[Coord2D], color: u32) -> (r: Result<
        (),
        RenderError,
    >)
        requires
            old(self).accepts(aabb),
        ensures
            r == verdict(polyline_outcome(aabb, data@, color)),
            r is Ok ==> final(self).received(polyline_outcome(aabb, data@, color)->Ok_0),
            final(self).accepts(aabb),
    {
        match rasterize_polyline(&aabb, data, color) {
            Ok(writes) => {
                self.emit(aabb, &writes);
                Ok(())
            },
            Err(e) => Err(e),
        }
    }

    /// Draws the antialiased segment between `p1` and `p2` in `color`.
    ///
    /// The writes that `rasterize_segment` lists for the same arguments are
    /// handed to the sink one by one, each of them. The sink is never called
    /// on a pixel outside the box, and not at all where the result is an
    /// error.
    pub fn draw_line(&mut self, aabb: AABB, p1: Coord2D, p2: Coord2D, color: u32) -> (r: Result<
        (),
        RenderError,
    >)
        requires
            old(self).accepts(aabb),
        ensures
            r == verdict(segment_outcome(aabb, p1, p2, color)),
            r is Ok ==> final(self).received(segment_writes(aabb, p1, p2, color)),
            final(self).accepts(aabb),
    {
        match rasterize_segment(&aabb, p1, p2, color) {
            Ok(writes) => {
                self.emit(aabb, &writes);
                Ok(())
            },
            Err(e) => Err(e),
        }
    }

    /// Every write of `writes` has reached the sink: what the sink ensures
    /// of a call holds of a call with each of them.
    pub open spec fn received(&self, writes: Seq<PixelWrite>) -> bool {
        forall|k: int|
            0 <= k < writes.len() ==> call_ensures(
                self.pixel_col_fn,
                ((#[trigger] writes[k]).x, writes[k].y, writes[k].color),
                (),
            )
    }

    /// Hands `writes` to the sink, one call for each, in order.
    fn emit(&mut self, aabb: AABB, writes: &Vec<PixelWrite>)
        requires
            old(self).accepts(aabb),
            all_in_box(aabb, writes@),
        ensures
            final(self).accepts(aabb),
            final(self).received(writes@),
    {
        let mut i: usize = 0;
        while i < writes.len()
            invariant
                i <= writes.len(),
                self.accepts(aabb),
                all_in_box(aabb, writes@),
                self.received(writes@.take(i as int)),
            decreases writes.len() - i,
        {
            let w = writes[i];
            assert(aabb.contains(Pixel16 { x: w.x, y: w.y }));
            (self.pixel_col_fn)(w.x, w.y, w.color);
            i = i + 1;
        }
        assert(writes@.take(i as int) =~= writes@);
    }
}

} // verus!
