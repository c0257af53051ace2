use crate::aabb::AABB;
use crate::coordinates::{Coord2D, Pixel16, ONE};
use crate::error::RenderError;
use crate::fixed::{floor_split, lemma_div_between, lemma_mul_le, magnitude, mul_div_floor};
use vstd::prelude::*;

verus! {

/// One call of the pixel sink: a pixel and the intensity-scaled color that
/// goes to it.
#[derive(Clone, Copy, Debug, PartialEq, Eq, Structural)]
pub struct PixelWrite {
    pub x: u16,
    pub y: u16,
    pub color: u32,
}

/// A segment laid out along its dominant axis: it is walked from `from` to
/// `to` on that axis, with `from < to` unless the endpoints coincide.
#[derive(Clone, Copy, Debug, PartialEq, Eq, Structural)]
pub struct Span {
    /// The dominant axis is x (else y).
    pub along_x: bool,
    /// Dominant-axis coordinate of the first endpoint.
    pub from: i64,
    /// Minor-axis coordinate of the first endpoint.
    pub from_minor: i64,
    /// Dominant-axis coordinate of the last endpoint.
    pub to: i64,
    /// Minor-axis coordinate of the last endpoint.
    pub to_minor: i64,
}

/// The slope of the segment has magnitude at most one, so it is walked along
/// x; a steeper segment is walked along y.
pub open spec fn steps_along_x(p1: Coord2D, p2: Coord2D) -> bool {
    magnitude(p2.y - p1.y) <= magnitude(p2.x - p1.x)
}

/// The segment between `p1` and `p2`, ordered along its dominant axis. The
/// order in which the endpoints are given does not matter.
pub open spec fn span_of(p1: Coord2D, p2: Coord2D) -> Span {
    if steps_along_x(p1, p2) {
        if p1.x <= p2.x {
            Span { along_x: true, from: p1.x, from_minor: p1.y, to: p2.x, to_minor: p2.y }
        } else {
            Span { along_x: true, from: p2.x, from_minor: p2.y, to: p1.x, to_minor: p1.y }
        }
    } else {
        if p1.y <= p2.y {
            Span { along_x: false, from: p1.y, from_minor: p1.x, to: p2.y, to_minor: p2.x }
        } else {
            Span { along_x: false, from: p2.y, from_minor: p2.x, to: p1.y, to_minor: p1.x }
        }
    }
}

/// The share `weight / 2^32` of `color`, rounded down.
pub open spec fn scaled(color: u32, weight: int) -> int {
    (color * weight) / (ONE as int)
}

/// The write of `color` to the pixel at `major` on the dominant axis and
/// `minor` on the other, or nothing if that pixel is outside the box.
pub open spec fn clipped(aabb: AABB, along_x: bool, major: int, minor: int, color: int) -> Seq<
    PixelWrite,
> {
    let x = if along_x {
        major
    } else {
        minor
    };
    let y = if along_x {
        minor
    } else {
        major
    };
    if aabb.min.x <= x <= aabb.max.x && aabb.min.y <= y <= aabb.max.y {
        seq![PixelWrite { x: x as u16, y: y as u16, color: color as u32 }]
    } else {
        Seq::empty()
    }
}

impl Span {
    /// The walk has a direction: the endpoints differ on the dominant axis
    /// and the slope towards the minor axis is at most one.
    pub open spec fn wf(&self) -> bool {
        &&& self.from < self.to
        &&& magnitude(self.to_minor - self.from_minor) <= self.to - self.from
    }

    /// The first integer step on the dominant axis.
    pub open spec fn first_step(&self) -> int {
        (self.from as int) / (ONE as int)
    }

    /// The last integer step on the dominant axis.
    pub open spec fn last_step(&self) -> int {
        (self.to as int) / (ONE as int)
    }

    /// Step `s` is within the range of the box on the dominant axis.
    pub open spec fn step_on_box(&self, aabb: AABB, s: int) -> bool {
        if self.along_x {
            aabb.min.x <= s <= aabb.max.x
        } else {
            aabb.min.y <= s <= aabb.max.y
        }
    }

    /// Where the line crosses step `s`: its minor-axis coordinate, rounded
    /// down to the fixed-point grid.
    pub open spec fn minor_at(&self, s: int) -> int {
        self.from_minor + ((s * ONE - self.from) * (self.to_minor - self.from_minor)) / (self.to
            - self.from)
    }

    /// The writes of step `s`, where the line crosses at `cell + frac` on
    /// the minor axis: the pixel at `cell` with the share `1 - frac` of the
    /// color, then its neighbour at `cell + 1` with the share `frac`, each
    /// only if it lies in the box.
    pub open spec fn step_writes(&self, aabb: AABB, color: u32, s: int) -> Seq<PixelWrite> {
        let v = self.minor_at(s);
        let cell = v / (ONE as int);
        let frac = v % (ONE as int);
        clipped(aabb, self.along_x, s, cell, scaled(color, ONE - frac)) + clipped(
            aabb,
            self.along_x,
            s,
            cell + 1,
            scaled(color, frac),
        )
    }

    /// The writes of the steps `lo, lo + 1, .., hi - 1`, in that order.
    pub open spec fn writes_between(&self, aabb: AABB, color: u32, lo: int, hi: int) -> Seq<
        PixelWrite,
    >
        decreases hi - lo,
    {
        if hi <= lo {
            Seq::empty()
        } else {
            self.writes_between(aabb, color, lo, hi - 1) + self.step_writes(aabb, color, hi - 1)
        }
    }

    /// All writes of the walk, from the first step to the last.
    pub open spec fn writes(&self, aabb: AABB, color: u32) -> Seq<PixelWrite> {
        self.writes_between(aabb, color, self.first_step(), self.last_step() + 1)
    }
}

/// The pixel writes that draw the antialiased segment between `p1` and `p2`
/// into the box, in the order in which they are made.
pub open spec fn segment_writes(aabb: AABB, p1: Coord2D, p2: Coord2D, color: u32) -> Seq<
    PixelWrite,
> {
    span_of(p1, p2).writes(aabb, color)
}

/// What drawing one segment yields: the writes, or the reason why nothing is
/// drawn.
pub open spec fn segment_outcome(aabb: AABB, p1: Coord2D, p2: Coord2D, color: u32) -> Result<
    Seq<PixelWrite>,
    RenderError,
> {
    if !aabb.wf() {
        Err(RenderError::InvalidBox)
    } else if p1 == p2 {
        Err(RenderError::EmptySegment)
    } else {
        Ok(segment_writes(aabb, p1, p2, color))
    }
}

/// Lays the segment between `p1` and `p2` out along its dominant axis.
pub fn walk_of(p1: Coord2D, p2: Coord2D) -> (sp: Span)
    ensures
        sp == span_of(p1, p2),
        p1 != p2 ==> sp.wf(),
{
    let dx: i128 = p2.x as i128 - p1.x as i128;
    let dy: i128 = p2.y as i128 - p1.y as i128;
    let run: i128 = if dx < 0 { -dx } else { dx };
    let rise: i128 = if dy < 0 { -dy } else { dy };
    if rise <= run {
        if p1.x <= p2.x {
            Span { along_x: true, from: p1.x, from_minor: p1.y, to: p2.x, to_minor: p2.y }
        } else {
            Span { along_x: true, from: p2.x, from_minor: p2.y, to: p1.x, to_minor: p1.y }
        }
    } else {
        if p1.y <= p2.y {
            Span { along_x: false, from: p1.y, from_minor: p1.x, to: p2.y, to_minor: p2.x }
        } else {
            Span { along_x: false, from: p2.y, from_minor: p2.x, to: p1.y, to_minor: p1.x }
        }
    }
}

/// The share `weight / 2^32` of `color`, rounded down.
pub fn scale_color(color: u32, weight: u64) -> (c: u32)
    requires
        weight <= ONE,
    ensures
        c == scaled(color, weight as int),
        c <= color,
{
    proof {
        lemma_mul_le(color as int, weight as int, color as int, ONE as int);
        lemma_div_between(color * weight, ONE as int, 0, color as int);
    }
    let product: u64 = (color as u64) * weight;
    (product / 0x1_0000_0000) as u32
}

/// Appends the write of `color` to the pixel at (`major`, `minor`) unless
/// the pixel is outside the box.
pub(crate) fn push_clipped(
    out: &mut Vec<PixelWrite>,
    aabb: &AABB,
    along_x: bool,
    major: i128,
    minor: i128,
    color: u32,
)
    ensures
        final(out)@ == old(out)@ + clipped(*aabb, along_x, major as int, minor as int, color as int),
{
    let x: i128 = if along_x { major } else { minor };
    let y: i128 = if along_x { minor } else { major };
    if aabb.min.x as i128 <= x && x <= aabb.max.x as i128 && aabb.min.y as i128 <= y && y
        <= aabb.max.y as i128 {
        out.push(PixelWrite { x: x as u16, y: y as u16, color });
        assert(final(out)@ =~= old(out)@ + seq![PixelWrite { x: x as u16, y: y as u16, color }]);
    } else {
        assert(out@ =~= old(out)@ + Seq::<PixelWrite>::empty());
    }
}

impl Span {
    /// Appends the writes of step `s` to `out`.
    pub(crate) fn push_step(&self, out: &mut Vec<PixelWrite>, aabb: &AABB, color: u32, s: u16)
        requires
            self.wf(),
        ensures
            final(out)@ == old(out)@ + self.step_writes(*aabb, color, s as int),
    {
        let t: i128 = (s as i128) * 0x1_0000_0000 - self.from as i128;
        let rise: i128 = self.to_minor as i128 - self.from_minor as i128;
        let run: u64 = (self.to as i128 - self.from as i128) as u64;
        proof {
            lemma_mul_le(magnitude(t as int), magnitude(rise as int), u64::MAX as int, run as int);
        }
        let v: i128 = self.from_minor as i128 + mul_div_floor(t, rise, run);
        let (cell, frac) = floor_split(v);
        let low = scale_color(color, 0x1_0000_0000 - frac);
        let high = scale_color(color, frac);
        push_clipped(out, aabb, self.along_x, s as i128, cell, low);
        push_clipped(out, aabb, self.along_x, s as i128, cell + 1, high);
        assert(out@ =~= old(out)@ + self.step_writes(*aabb, color, s as int));
    }

    /// A stretch of steps that each write nothing writes nothing.
    pub proof fn lemma_blank(&self, aabb: AABB, color: u32, lo: int, hi: int)
        requires
            forall|s: int|
                lo <= s < hi ==> #[trigger] self.step_writes(aabb, color, s) == Seq::<
                    PixelWrite,
                >::empty(),
        ensures
            self.writes_between(aabb, color, lo, hi) == Seq::<PixelWrite>::empty(),
        decreases hi - lo,
    {
        if lo < hi {
            self.lemma_blank(aabb, color, lo, hi - 1);
            assert(self.step_writes(aabb, color, hi - 1) == Seq::<PixelWrite>::empty());
            assert(self.writes_between(aabb, color, lo, hi) =~= Seq::<PixelWrite>::empty());
        }
    }

    /// Steps that lie off the box on the dominant axis write nothing.
    pub proof fn lemma_blank_outside(&self, aabb: AABB, color: u32, lo: int, hi: int)
        requires
            forall|s: int| lo <= s < hi ==> !#[trigger] self.step_on_box(aabb, s),
        ensures
            self.writes_between(aabb, color, lo, hi) == Seq::<PixelWrite>::empty(),
    {
        assert forall|s: int| lo <= s < hi implies #[trigger] self.step_writes(aabb, color, s)
            == Seq::<PixelWrite>::empty() by {
            assert(!self.step_on_box(aabb, s));
            assert(self.step_writes(aabb, color, s) =~= Seq::<PixelWrite>::empty());
        }
        self.lemma_blank(aabb, color, lo, hi);
    }

    /// The line stays near its endpoints: at every step of the walk it
    /// crosses less than a pixel beyond the minor-axis coordinates of the
    /// two endpoints.
    pub proof fn lemma_minor_bounds(&self, s: int)
        requires
            self.wf(),
            self.first_step() <= s <= self.last_step(),
        ensures
            self.from_minor <= self.to_minor ==> self.from_minor - ONE <= self.minor_at(s)
                <= self.to_minor,
            self.from_minor > self.to_minor ==> self.to_minor <= self.minor_at(s) < self.from_minor
                + ONE,
    {
        let t = s * ONE - self.from;
        let rise = self.to_minor - self.from_minor;
        let run = self.to - self.from;
        assert(-ONE < t <= run);
        if rise >= 0 {
            assert(-ONE * run <= t * rise <= rise * run) by (nonlinear_arith)
                requires
                    -ONE < t <= run,
                    0 <= rise <= run,
                    ONE > 0,
            ;
            lemma_div_between(t * rise, run, -ONE, rise);
        } else {
            assert(rise * run <= t * rise <= (ONE - 1) * run) by (nonlinear_arith)
                requires
                    -ONE < t <= run,
                    -run <= rise < 0,
                    ONE > 0,
            ;
            lemma_div_between(t * rise, run, rise, ONE - 1);
        }
    }

    /// A walk can be cut at any step: the writes of both parts, joined, are
    /// the writes of the whole.
    pub proof fn lemma_split(&self, aabb: AABB, color: u32, lo: int, mid: int, hi: int)
        requires
            lo <= mid <= hi,
        ensures
            self.writes_between(aabb, color, lo, hi) == self.writes_between(aabb, color, lo, mid)
                + self.writes_between(aabb, color, mid, hi),
        decreases hi - mid,
    {
        if mid < hi {
            self.lemma_split(aabb, color, lo, mid, hi - 1);
            assert(self.writes_between(aabb, color, lo, hi) =~= self.writes_between(
                aabb,
                color,
                lo,
                mid,
            ) + self.writes_between(aabb, color, mid, hi));
        } else {
            assert(self.writes_between(aabb, color, lo, hi) =~= self.writes_between(
                aabb,
                color,
                lo,
                mid,
            ) + self.writes_between(aabb, color, mid, hi));
        }
    }
}

/// Every pixel in `writes` lies in the box.
pub open spec fn all_in_box(aabb: AABB, writes: Seq<PixelWrite>) -> bool {
    forall|i: int|
        0 <= i < writes.len() ==> aabb.contains(
            Pixel16 { x: (#[trigger] writes[i]).x, y: writes[i].y },
        )
}

impl Span {
    /// Clipping: whatever part of a walk is taken, no write leaves the box.
    pub proof fn lemma_range_in_box(&self, aabb: AABB, color: u32, lo: int, hi: int)
        ensures
            all_in_box(aabb, self.writes_between(aabb, color, lo, hi)),
        decreases hi - lo,
    {
        if lo < hi {
            self.lemma_range_in_box(aabb, color, lo, hi - 1);
        }
    }
}

/// The coordinate of a write on the dominant axis of a walk.
pub open spec fn major_of(w: PixelWrite, along_x: bool) -> int {
    if along_x {
        w.x as int
    } else {
        w.y as int
    }
}

impl Span {
    /// The writes of the steps `lo, .., hi - 1` lie on those steps and come
    /// in ascending order along the dominant axis.
    pub proof fn lemma_range_ascends(&self, aabb: AABB, color: u32, lo: int, hi: int)
        ensures
            forall|i: int|
                0 <= i < self.writes_between(aabb, color, lo, hi).len() ==> lo <= major_of(
                    #[trigger] self.writes_between(aabb, color, lo, hi)[i],
                    self.along_x,
                ) < hi,
            forall|i: int, j: int|
                0 <= i <= j < self.writes_between(aabb, color, lo, hi).len() ==> major_of(
                    #[trigger] self.writes_between(aabb, color, lo, hi)[i],
                    self.along_x,
                ) <= major_of(
                    #[trigger] self.writes_between(aabb, color, lo, hi)[j],
                    self.along_x,
                ),
        decreases hi - lo,
    {
        if lo < hi {
            self.lemma_range_ascends(aabb, color, lo, hi - 1);
            let head = self.writes_between(aabb, color, lo, hi - 1);
            let tail = self.step_writes(aabb, color, hi - 1);
            assert forall|k: int| 0 <= k < tail.len() implies major_of(
                #[trigger] tail[k],
                self.along_x,
            ) == hi - 1 by {}
            assert forall|i: int| 0 <= i < (head + tail).len() implies lo <= major_of(
                #[trigger] (head + tail)[i],
                self.along_x,
            ) < hi && (i < head.len() ==> (head + tail)[i] == head[i]) && (i >= head.len() ==> (head
                + tail)[i] == tail[i - head.len()]) by {}
        }
    }
}

/// The writes of a segment come in ascending order along its dominant axis.
pub proof fn lemma_segment_ascends(aabb: AABB, p1: Coord2D, p2: Coord2D, color: u32)
    ensures
        forall|i: int, j: int|
            0 <= i <= j < segment_writes(aabb, p1, p2, color).len() ==> major_of(
                #[trigger] segment_writes(aabb, p1, p2, color)[i],
                span_of(p1, p2).along_x,
            ) <= major_of(
                #[trigger] segment_writes(aabb, p1, p2, color)[j],
                span_of(p1, p2).along_x,
            ),
{
    let sp = span_of(p1, p2);
    sp.lemma_range_ascends(aabb, color, sp.first_step(), sp.last_step() + 1);
}

/// Clipping: no write of a segment leaves the box, wherever the endpoints
/// lie.
pub proof fn lemma_segment_in_box(aabb: AABB, p1: Coord2D, p2: Coord2D, color: u32)
    ensures
        all_in_box(aabb, segment_writes(aabb, p1, p2, color)),
{
    let sp = span_of(p1, p2);
    sp.lemma_range_in_box(aabb, color, sp.first_step(), sp.last_step() + 1);
}

/// The segment keeps clear of the box: on one axis, both endpoints lie two
/// pixels or more off the same side of the box.
pub open spec fn clear_of_box(aabb: AABB, p1: Coord2D, p2: Coord2D) -> bool {
    ||| p1.x <= (aabb.min.x - 2) * ONE && p2.x <= (aabb.min.x - 2) * ONE
    ||| p1.x >= (aabb.max.x + 2) * ONE && p2.x >= (aabb.max.x + 2) * ONE
    ||| p1.y <= (aabb.min.y - 2) * ONE && p2.y <= (aabb.min.y - 2) * ONE
    ||| p1.y >= (aabb.max.y + 2) * ONE && p2.y >= (aabb.max.y + 2) * ONE
}

/// A segment that keeps clear of the box writes nothing.
pub proof fn lemma_clear_segment_is_blank(aabb: AABB, p1: Coord2D, p2: Coord2D, color: u32)
    requires
        p1 != p2,
        clear_of_box(aabb, p1, p2),
    ensures
        segment_writes(aabb, p1, p2, color) == Seq::<PixelWrite>::empty(),
{
    let sp = span_of(p1, p2);
    assert(sp.wf());
    assert forall|s: int| sp.first_step() <= s < sp.last_step() + 1 implies #[trigger] sp.step_writes(
        aabb,
        color,
        s,
    ) == Seq::<PixelWrite>::empty() by {
        sp.lemma_minor_bounds(s);
        assert(sp.step_writes(aabb, color, s) =~= Seq::<PixelWrite>::empty());
    }
    sp.lemma_blank(aabb, color, sp.first_step(), sp.last_step() + 1);
}

/// Drawing is symmetric: a segment drawn from `p1` to `p2` and the same
/// segment drawn from `p2` to `p1` give the same writes, pixel for pixel and
/// in the same order.
pub proof fn lemma_segment_symmetric(aabb: AABB, p1: Coord2D, p2: Coord2D, color: u32)
    ensures
        span_of(p1, p2) == span_of(p2, p1),
        segment_writes(aabb, p1, p2, color) == segment_writes(aabb, p2, p1, color),
        segment_outcome(aabb, p1, p2, color) == segment_outcome(aabb, p2, p1, color),
{
}

/// Draws the antialiased segment between `p1` and `p2` into the box and
/// returns the pixel writes in the order in which a sink receives them.
///
/// The segment is walked along its dominant axis in increasing order, one
/// integer step at a time. Each step splits the color between the two pixels
/// next to the line, rounding each share down, and keeps the pixels that lie
/// in the box. An ill-formed box and coincident endpoints are errors.
pub fn rasterize_segment(aabb: &AABB, p1: Coord2D, p2: Coord2D, color: u32) -> (r: Result<
    Vec<PixelWrite>,
    RenderError,
>)
    ensures
        match r {
            Ok(v) => segment_outcome(*aabb, p1, p2, color) == Ok::<Seq<PixelWrite>, RenderError>(
                v@,
            ),
            Err(e) => segment_outcome(*aabb, p1, p2, color) == Err::<Seq<PixelWrite>, RenderError>(
                e,
            ),
        },
        r is Ok ==> all_in_box(*aabb, r->Ok_0@),
{
    proof {
        lemma_segment_in_box(*aabb, p1, p2, color);
    }
    if aabb.min.x > aabb.max.x || aabb.min.y > aabb.max.y {
        return Err(RenderError::InvalidBox);
    }
    if p1.x == p2.x && p1.y == p2.y {
        return Err(RenderError::EmptySegment);
    }
    let sp = walk_of(p1, p2);
    let first: i128 = floor_split(sp.from as i128).0;
    let last: i128 = floor_split(sp.to as i128).0;
    let box_lo: i128 = if sp.along_x { aabb.min.x as i128 } else { aabb.min.y as i128 };
    let box_hi: i128 = if sp.along_x { aabb.max.x as i128 } else { aabb.max.y as i128 };
    let lo: i128 = if first < box_lo { box_lo } else { first };
    let hi: i128 = if last > box_hi { box_hi } else { last };
    let mut out: Vec<PixelWrite> = Vec::new();
    if lo > hi {
        proof {
            assert forall|s: int| first <= s < last + 1 implies !#[trigger] sp.step_on_box(
                *aabb,
                s,
            ) by {}
            sp.lemma_blank_outside(*aabb, color, first as int, last + 1);
        }
        return Ok(out);
    }
    let mut s: i128 = lo;
    while s <= hi
        invariant
            0 <= lo <= s <= hi + 1,
            hi <= u16::MAX,
            sp.wf(),
            out@ == sp.writes_between(*aabb, color, lo as int, s as int),
        decreases hi + 1 - s,
    {
        sp.push_step(&mut out, aabb, color, s as u16);
        s = s + 1;
    }
    proof {
        assert forall|k: int| first <= k < lo implies !#[trigger] sp.step_on_box(*aabb, k) by {}
        assert forall|k: int| hi + 1 <= k < last + 1 implies !#[trigger] sp.step_on_box(
            *aabb,
            k,
        ) by {}
        sp.lemma_blank_outside(*aabb, color, first as int, lo as int);
        sp.lemma_blank_outside(*aabb, color, hi + 1, last + 1);
        sp.lemma_split(*aabb, color, first as int, lo as int, last + 1);
        sp.lemma_split(*aabb, color, lo as int, hi + 1, last + 1);
        assert(out@ =~= sp.writes(*aabb, color));
    }
    Ok(out)
}

/// Two neighbours in `pts` coincide, so the segment between them is empty.
pub open spec fn has_empty_segment(pts: Seq<Coord2D>) -> bool {
    exists|i: int| 0 <= i < pts.len() - 1 && #[trigger] pts[i] == pts[i + 1]
}

/// The writes of the first `n` segments of the polyline through `pts`, in
/// the order of the points.
pub open spec fn polyline_upto(aabb: AABB, pts: Seq<Coord2D>, color: u32, n: int) -> Seq<
    PixelWrite,
>
    decreases n,
{
    if n <= 0 {
        Seq::empty()
    } else {
        polyline_upto(aabb, pts, color, n - 1) + segment_writes(aabb, pts[n - 1], pts[n], color)
    }
}

/// The writes that draw the polyline through `pts`: one segment for each
/// pair of neighbours.
pub open spec fn polyline_writes(aabb: AABB, pts: Seq<Coord2D>, color: u32) -> Seq<PixelWrite> {
    polyline_upto(aabb, pts, color, pts.len() - 1)
}

/// What drawing a polyline yields. Fewer than two points draw nothing and
/// are no error; otherwise the box must be well-formed and no segment empty.
pub open spec fn polyline_outcome(aabb: AABB, pts: Seq<Coord2D>, color: u32) -> Result<
    Seq<PixelWrite>,
    RenderError,
> {
    if pts.len() < 2 {
        Ok(Seq::empty())
    } else if !aabb.wf() {
        Err(RenderError::InvalidBox)
    } else if has_empty_segment(pts) {
        Err(RenderError::EmptySegment)
    } else {
        Ok(polyline_writes(aabb, pts, color))
    }
}

/// Clipping: no write of a polyline leaves the box.
pub proof fn lemma_polyline_in_box(aabb: AABB, pts: Seq<Coord2D>, color: u32, n: int)
    ensures
        all_in_box(aabb, polyline_upto(aabb, pts, color, n)),
    decreases n,
{
    if n > 0 {
        lemma_polyline_in_box(aabb, pts, color, n - 1);
        lemma_segment_in_box(aabb, pts[n - 1], pts[n], color);
    }
}

/// Draws the polyline through `data` into the box and returns the pixel
/// writes in the order in which a sink receives them: segment after segment
/// in the order of the points.
///
/// All errors are found before a single write is handed out.
pub fn rasterize_polyline(aabb: &AABB, data: &[Coord2D], color: u32) -> (r: Result<
    Vec<PixelWrite>,
    RenderError,
>)
    ensures
        match r {
            Ok(v) => polyline_outcome(*aabb, data@, color) == Ok::<Seq<PixelWrite>, RenderError>(
                v@,
            ),
            Err(e) => polyline_outcome(*aabb, data@, color) == Err::<Seq<PixelWrite>, RenderError>(
                e,
            ),
        },
        r is Ok ==> all_in_box(*aabb, r->Ok_0@),
{
    let mut out: Vec<PixelWrite> = Vec::new();
    if data.len() < 2 {
        return Ok(out);
    }
    if aabb.min.x > aabb.max.x || aabb.min.y > aabb.max.y {
        return Err(RenderError::InvalidBox);
    }
    let mut i: usize = 0;
    while i + 1 < data.len()
        invariant
            aabb.wf(),
            2 <= data.len(),
            i + 1 <= data.len(),
            out@ == polyline_upto(*aabb, data@, color, i as int),
            forall|j: int| 0 <= j < i ==> #[trigger] data@[j] != data@[j + 1],
        decreases data.len() - i,
    {
        match rasterize_segment(aabb, data[i], data[i + 1], color) {
            Ok(mut writes) => {
                out.append(&mut writes);
            },
            Err(e) => {
                assert(data@[i as int] == data@[i + 1]);
                return Err(e);
            },
        }
        i = i + 1;
    }
    proof {
        lemma_polyline_in_box(*aabb, data@, color, data.len() - 1);
    }
    Ok(out)
}

} // verus!
