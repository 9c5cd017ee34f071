//! Planar geometry for the quadtree: integer grid points and axis-aligned
//! rectangles, with the containment, overlap and quartering operations the
//! index is built on.

use vstd::prelude::*;

verus! {

/// Largest magnitude a rectangle corner coordinate may have. Keeping every
/// corner within this bound lets widths, heights and midpoints be computed
/// in `i64` with no overflow.
pub const COORD_LIMIT: i64 = 0x2000_0000_0000_0000;

/// A position on the integer grid.
#[derive(Clone, Copy, PartialEq, Eq, Debug)]
pub struct Point {
    pub x: i64,
    pub y: i64,
}

/// An axis-aligned rectangle, given by its lower-left (`min`) and
/// upper-right (`max`) corners. As a region of grid points it is half-open:
/// it owns the points with `min <= p < max` on both axes, so the right and
/// top edges belong to the neighbouring rectangle.
#[derive(Clone, Copy, PartialEq, Eq, Debug)]
pub struct Rect {
    pub min: Point,
    pub max: Point,
}

/// A well-formed rectangle: corners in order and within the coordinate bound.
pub open spec fn rect_wf(r: Rect) -> bool {
    &&& -COORD_LIMIT <= r.min.x <= r.max.x <= COORD_LIMIT
    &&& -COORD_LIMIT <= r.min.y <= r.max.y <= COORD_LIMIT
}

/// Ownership containment: half-open on both axes. A coordinate exactly on
/// the right or top edge is owned by the rectangle to the right or above.
pub open spec fn rect_owns(r: Rect, p: Point) -> bool {
    r.min.x <= p.x < r.max.x && r.min.y <= p.y < r.max.y
}

/// Query containment: closed on all edges, so a point exactly on the
/// boundary of a query rectangle counts as inside it.
pub open spec fn rect_covers(r: Rect, p: Point) -> bool {
    r.min.x <= p.x <= r.max.x && r.min.y <= p.y <= r.max.y
}

/// The pruning test between a node rectangle (half-open) and a query
/// rectangle (closed): when false, no point owned by `node` is covered by
/// `range`, so the node's whole subtree can be skipped.
pub open spec fn rect_meets(node: Rect, range: Rect) -> bool {
    &&& range.min.x < node.max.x && node.min.x <= range.max.x
    &&& range.min.y < node.max.y && node.min.y <= range.max.y
}

/// The centre of a rectangle, rounded down. Splitting at this point quarters
/// the rectangle exactly.
pub open spec fn rect_mid(r: Rect) -> Point {
    Point {
        x: (r.min.x + (r.max.x - r.min.x) / 2) as i64,
        y: (r.min.y + (r.max.y - r.min.y) / 2) as i64,
    }
}

/// A rectangle can be split when at least one axis is two or more grid
/// cells long; splitting it then makes strictly smaller quadrants.
pub open spec fn rect_splittable(r: Rect) -> bool {
    r.max.x - r.min.x >= 2 || r.max.y - r.min.y >= 2
}

/// An atomic cell: at most one grid cell on each axis, so no split can
/// shrink it.
pub open spec fn rect_atomic(r: Rect) -> bool {
    !rect_splittable(r)
}

/// Termination measure for recursion that descends into quadrants: the sum
/// of the two side lengths.
pub open spec fn rect_extent(r: Rect) -> int {
    (r.max.x - r.min.x) + (r.max.y - r.min.y)
}

/// The set of grid points a rectangle owns.
pub open spec fn rect_region(r: Rect) -> Set<Point> {
    Set::new(|p: Point| rect_owns(r, p))
}

/// The north-east (upper-right) quadrant.
pub open spec fn quad_ne(r: Rect) -> Rect {
    Rect { min: rect_mid(r), max: r.max }
}

/// The north-west (upper-left) quadrant.
pub open spec fn quad_nw(r: Rect) -> Rect {
    Rect {
        min: Point { x: r.min.x, y: rect_mid(r).y },
        max: Point { x: rect_mid(r).x, y: r.max.y },
    }
}

/// The south-east (lower-right) quadrant.
pub open spec fn quad_se(r: Rect) -> Rect {
    Rect {
        min: Point { x: rect_mid(r).x, y: r.min.y },
        max: Point { x: r.max.x, y: rect_mid(r).y },
    }
}

/// The south-west (lower-left) quadrant.
pub open spec fn quad_sw(r: Rect) -> Rect {
    Rect { min: r.min, max: rect_mid(r) }
}

/// The rectangle centred at `origin` with side lengths `size` (bevy-style
/// construction): `min` is the centre shifted down-left by half the size.
pub open spec fn rect_from_center_size(origin: Point, size: Point) -> Rect {
    Rect {
        min: Point {
            x: (origin.x - size.x / 2) as i64,
            y: (origin.y - size.y / 2) as i64,
        },
        max: Point {
            x: (origin.x - size.x / 2 + size.x) as i64,
            y: (origin.y - size.y / 2 + size.y) as i64,
        },
    }
}

impl Rect {
    /// Half-open ownership test, used to route a point to the node that
    /// owns its coordinate.
    pub fn contains(&self, p: &Point) -> (owned: bool)
        ensures
            owned == rect_owns(*self, *p),
    {
        self.min.x <= p.x && p.x < self.max.x && self.min.y <= p.y && p.y < self.max.y
    }

    /// Closed containment test, used to decide whether a stored point falls
    /// inside a query rectangle.
    pub fn contains_closed(&self, p: &Point) -> (covered: bool)
        ensures
            covered == rect_covers(*self, *p),
    {
        self.min.x <= p.x && p.x <= self.max.x && self.min.y <= p.y && p.y <= self.max.y
    }

    /// Overlap test against a closed query rectangle; `false` means the
    /// query cannot cover any point this rectangle owns.
    pub fn meets(&self, range: &Rect) -> (overlapping: bool)
        ensures
            overlapping == rect_meets(*self, *range),
    {
        range.min.x < self.max.x && self.min.x <= range.max.x && range.min.y < self.max.y
            && self.min.y <= range.max.y
    }

    /// Whether a split would shrink this rectangle.
    pub fn can_split(&self) -> (splittable: bool)
        requires
            rect_wf(*self),
        ensures
            splittable == rect_splittable(*self),
    {
        self.max.x - self.min.x >= 2 || self.max.y - self.min.y >= 2
    }

    /// The centre of this rectangle, rounded down.
    pub fn midpoint(&self) -> (m: Point)
        requires
            rect_wf(*self),
        ensures
            m == rect_mid(*self),
    {
        let dx: i64 = self.max.x - self.min.x;
        let dy: i64 = self.max.y - self.min.y;
        let hx: i64 = ((dx as u64) / 2) as i64;
        let hy: i64 = ((dy as u64) / 2) as i64;
        proof {
            assert(0 <= dx / 2 <= dx);
            assert(0 <= dy / 2 <= dy);
        }
        Point { x: self.min.x + hx, y: self.min.y + hy }
    }

    /// The four quadrants of this rectangle, in north-east, north-west,
    /// south-east, south-west order.
    pub fn quadrants(&self) -> (quads: (Rect, Rect, Rect, Rect))
        requires
            rect_wf(*self),
        ensures
            quads.0 == quad_ne(*self),
            quads.1 == quad_nw(*self),
            quads.2 == quad_se(*self),
            quads.3 == quad_sw(*self),
    {
        let m = self.midpoint();
        (
            Rect { min: m, max: self.max },
            Rect { min: Point { x: self.min.x, y: m.y }, max: Point { x: m.x, y: self.max.y } },
            Rect { min: Point { x: m.x, y: self.min.y }, max: Point { x: self.max.x, y: m.y } },
            Rect { min: self.min, max: m },
        )
    }

    /// Build the rectangle centred at `origin` with side lengths `size`.
    pub fn from_center_size(origin: Point, size: Point) -> (r: Rect)
        requires
            -COORD_LIMIT / 2 <= origin.x <= COORD_LIMIT / 2,
            -COORD_LIMIT / 2 <= origin.y <= COORD_LIMIT / 2,
            0 <= size.x <= COORD_LIMIT / 2,
            0 <= size.y <= COORD_LIMIT / 2,
        ensures
            r == rect_from_center_size(origin, size),
            rect_wf(r),
    {
        let hx: i64 = ((size.x as u64) / 2) as i64;
        let hy: i64 = ((size.y as u64) / 2) as i64;
        proof {
            assert(0 <= size.x / 2 <= size.x);
            assert(0 <= size.y / 2 <= size.y);
        }
        let min_x: i64 = origin.x - hx;
        let min_y: i64 = origin.y - hy;
        Rect {
            min: Point { x: min_x, y: min_y },
            max: Point { x: min_x + size.x, y: min_y + size.y },
        }
    }
}

/// The midpoint lies between the corners on both axes.
pub proof fn lemma_mid_in_rect(r: Rect)
    requires
        rect_wf(r),
    ensures
        r.min.x <= rect_mid(r).x <= r.max.x,
        r.min.y <= rect_mid(r).y <= r.max.y,
{
    assert(0 <= (r.max.x - r.min.x) / 2 <= r.max.x - r.min.x);
    assert(0 <= (r.max.y - r.min.y) / 2 <= r.max.y - r.min.y);
}

/// Quartering a well-formed rectangle yields well-formed quadrants.
pub proof fn lemma_quadrants_wf(r: Rect)
    requires
        rect_wf(r),
    ensures
        rect_wf(quad_ne(r)),
        rect_wf(quad_nw(r)),
        rect_wf(quad_se(r)),
        rect_wf(quad_sw(r)),
{
    lemma_mid_in_rect(r);
}

/// Splitting a splittable rectangle strictly shrinks every quadrant's
/// extent, which bounds the recursion depth of insertion.
pub proof fn lemma_quadrants_shrink(r: Rect)
    requires
        rect_wf(r),
        rect_splittable(r),
    ensures
        0 <= rect_extent(quad_ne(r)) < rect_extent(r),
        0 <= rect_extent(quad_nw(r)) < rect_extent(r),
        0 <= rect_extent(quad_se(r)) < rect_extent(r),
        0 <= rect_extent(quad_sw(r)) < rect_extent(r),
{
    lemma_mid_in_rect(r);
    let dx = r.max.x - r.min.x;
    let dy = r.max.y - r.min.y;
    assert(dx >= 2 ==> dx / 2 >= 1);
    assert(dy >= 2 ==> dy / 2 >= 1);
    assert(dx / 2 * 2 + dx % 2 == dx && 0 <= dx % 2 < 2);
    assert(dy / 2 * 2 + dy % 2 == dy && 0 <= dy % 2 < 2);
}

/// A quadrant only owns points its parent owns.
pub proof fn lemma_quadrant_within(r: Rect, p: Point)
    requires
        rect_wf(r),
    ensures
        rect_owns(quad_ne(r), p) ==> rect_owns(r, p),
        rect_owns(quad_nw(r), p) ==> rect_owns(r, p),
        rect_owns(quad_se(r), p) ==> rect_owns(r, p),
        rect_owns(quad_sw(r), p) ==> rect_owns(r, p),
{
    lemma_mid_in_rect(r);
}

/// Each point the parent owns is owned by exactly one quadrant: the four
/// quadrants partition the parent with no gaps and no overlaps.
pub proof fn lemma_quadrants_partition_point(r: Rect, p: Point)
    requires
        rect_wf(r),
    ensures
        rect_owns(r, p) <==> (rect_owns(quad_ne(r), p) || rect_owns(quad_nw(r), p)
            || rect_owns(quad_se(r), p) || rect_owns(quad_sw(r), p)),
        rect_owns(quad_ne(r), p) ==> !rect_owns(quad_nw(r), p) && !rect_owns(quad_se(r), p)
            && !rect_owns(quad_sw(r), p),
        rect_owns(quad_nw(r), p) ==> !rect_owns(quad_se(r), p) && !rect_owns(quad_sw(r), p),
        rect_owns(quad_se(r), p) ==> !rect_owns(quad_sw(r), p),
{
    lemma_mid_in_rect(r);
}

/// The partition law, stated over point sets: the four quadrant regions are
/// pairwise disjoint and their union is exactly the parent's region.
pub proof fn lemma_quadrants_partition(r: Rect)
    requires
        rect_wf(r),
    ensures
        rect_region(quad_ne(r)) + rect_region(quad_nw(r)) + rect_region(quad_se(r))
            + rect_region(quad_sw(r)) == rect_region(r),
        rect_region(quad_ne(r)).disjoint(rect_region(quad_nw(r))),
        rect_region(quad_ne(r)).disjoint(rect_region(quad_se(r))),
        rect_region(quad_ne(r)).disjoint(rect_region(quad_sw(r))),
        rect_region(quad_nw(r)).disjoint(rect_region(quad_se(r))),
        rect_region(quad_nw(r)).disjoint(rect_region(quad_sw(r))),
        rect_region(quad_se(r)).disjoint(rect_region(quad_sw(r))),
{
    assert forall|p: Point|
        {
            &&& (rect_region(r).contains(p) <==> (rect_region(quad_ne(r)) + rect_region(
                quad_nw(r),
            ) + rect_region(quad_se(r)) + rect_region(quad_sw(r))).contains(p))
            &&& !(rect_region(quad_ne(r)).contains(p) && rect_region(quad_nw(r)).contains(p))
            &&& !(rect_region(quad_ne(r)).contains(p) && rect_region(quad_se(r)).contains(p))
            &&& !(rect_region(quad_ne(r)).contains(p) && rect_region(quad_sw(r)).contains(p))
            &&& !(rect_region(quad_nw(r)).contains(p) && rect_region(quad_se(r)).contains(p))
            &&& !(rect_region(quad_nw(r)).contains(p) && rect_region(quad_sw(r)).contains(p))
            &&& !(rect_region(quad_se(r)).contains(p) && rect_region(quad_sw(r)).contains(p))
        } by {
        lemma_quadrants_partition_point(r, p);
    }
    assert(rect_region(quad_ne(r)) + rect_region(quad_nw(r)) + rect_region(quad_se(r))
        + rect_region(quad_sw(r)) =~= rect_region(r));
}

/// Pruning is safe: a node that does not meet the query owns no point the
/// query covers.
pub proof fn lemma_prune_safe(node: Rect, range: Rect, p: Point)
    requires
        !rect_meets(node, range),
        rect_owns(node, p),
    ensures
        !rect_covers(range, p),
{
}

} // verus!
