use vstd::prelude::*;

use crate::{Point, Pt};

verus! {

/// Component-wise `<=` on points.
pub open spec fn pt_le(a: Pt, b: Pt) -> bool {
    a.x <= b.x && a.y <= b.y
}

/// Midpoint of two coordinates, rounded towards the lower one.
pub open spec fn mid(a: int, b: int) -> int {
    a + (b - a) / 2
}

pub proof fn lemma_mid_between(a: int, b: int)
    requires
        a <= b,
    ensures
        a <= mid(a, b) <= b,
{
    let d = b - a;
    assert(0 <= d / 2 <= d) by (nonlinear_arith)
        requires
            d >= 0,
    ;
}

/// Represents an axis-aligned rectangle defined by two points: the start and the end.
/// It is used to define boundaries for quadtree nodes and provides utility functions
/// for geometric calculations.
#[derive(Clone, Copy, Debug, PartialEq, Eq, Structural)]
pub struct Rect {
    pub start: Pt,
    pub center: Pt,
    pub end: Pt,
}

/// The rectangle that `Rect::new` builds from two corners.
pub open spec fn rect_new_spec(start: Pt, end: Pt) -> Rect {
    Rect {
        start,
        center: Pt { x: mid(start.x as int, end.x as int) as i64, y: mid(start.y as int, end.y as int) as i64 },
        end,
    }
}

/// A rectangle is well formed when its corners are ordered and its cached
/// center is the midpoint of the corners.
pub open spec fn rect_wf(r: Rect) -> bool {
    &&& r.start.x <= r.end.x
    &&& r.start.y <= r.end.y
    &&& r.center.x == mid(r.start.x as int, r.end.x as int)
    &&& r.center.y == mid(r.start.y as int, r.end.y as int)
}

/// Inclusive containment of a point in a rectangle.
pub open spec fn rect_contains(r: Rect, p: Pt) -> bool {
    pt_le(r.start, p) && pt_le(p, r.end)
}

/// Whether two rectangles share any space; touching at an edge or corner counts.
pub open spec fn rects_intersect(a: Rect, b: Rect) -> bool {
    !(a.end.x < b.start.x || a.start.x > b.end.x || a.end.y < b.start.y || a.start.y > b.end.y)
}

pub proof fn lemma_rect_new_wf(start: Pt, end: Pt)
    requires
        pt_le(start, end),
    ensures
        rect_wf(rect_new_spec(start, end)),
        rect_new_spec(start, end).start == start,
        rect_new_spec(start, end).end == end,
{
    lemma_mid_between(start.x as int, end.x as int);
    lemma_mid_between(start.y as int, end.y as int);
}

pub proof fn lemma_wf_center_between(r: Rect)
    requires
        rect_wf(r),
    ensures
        pt_le(r.start, r.center),
        pt_le(r.center, r.end),
{
    lemma_mid_between(r.start.x as int, r.end.x as int);
    lemma_mid_between(r.start.y as int, r.end.y as int);
}

/// A point lying in both rectangles witnesses that they intersect.
pub proof fn lemma_point_in_both_rects_intersect(a: Rect, b: Rect, p: Pt)
    requires
        rect_contains(a, p),
        rect_contains(b, p),
    ensures
        rects_intersect(a, b),
{
}

/// The bounding rectangle of a shape, as `Shape::rect` builds it.
pub open spec fn shape_rect<S: Shape>(s: S) -> Rect {
    rect_new_spec(s.spec_start(), s.spec_end())
}

/// A trait for shapes that can be used to query the quadtree. Shapes must be able to
/// provide their start and end points, their center point, and check if they contain
/// a point. They must also be able to check if they intersect with another shape.
pub trait Shape: Sized {
    /// Whether the shape's cached data is consistent; constructors establish this.
    spec fn spec_wf(&self) -> bool;

    /// The start corner of the shape's bounding rectangle.
    spec fn spec_start(&self) -> Pt;

    /// The end corner of the shape's bounding rectangle.
    spec fn spec_end(&self) -> Pt;

    /// The center point of the shape.
    spec fn spec_center(&self) -> Pt;

    /// Whether the shape contains a point (inclusive of the shape's border).
    spec fn spec_contains(&self, p: Pt) -> bool;

    /// Whether the shape shares any space with another shape of the same kind.
    spec fn spec_intersects(&self, other: &Self) -> bool;

    /// Whether containment of both corners of a rectangle implies containment
    /// of the whole rectangle. This holds for rectangles and bare points, but
    /// not for circles, whose corner-sampling containment test is only a
    /// conservative fast path.
    spec fn spec_corner_exact(&self) -> bool;

    /// A contained point lies within the shape's bounding rectangle.
    proof fn lemma_contains_in_bounds(&self, p: Pt)
        requires
            self.spec_wf(),
            self.spec_contains(p),
        ensures
            pt_le(self.spec_start(), p),
            pt_le(p, self.spec_end()),
    ;

    /// The bounding corners of a well-formed shape are ordered.
    proof fn lemma_start_le_end(&self)
        requires
            self.spec_wf(),
        ensures
            pt_le(self.spec_start(), self.spec_end()),
    ;

    /// For corner-exact shapes, containment of both corners of a rectangle
    /// gives containment of every point of the rectangle.
    proof fn lemma_corner_exact(&self, r: Rect, p: Pt)
        requires
            self.spec_wf(),
            self.spec_corner_exact(),
            self.spec_contains(r.start),
            self.spec_contains(r.end),
            rect_contains(r, p),
        ensures
            self.spec_contains(p),
    ;

    /// Get the start point of the shape
    fn start(&self) -> (p: Pt)
        ensures
            p == self.spec_start(),
    ;

    /// Get the end point of the shape
    fn end(&self) -> (p: Pt)
        ensures
            p == self.spec_end(),
    ;

    /// Get the center point of the shape
    fn center(&self) -> (p: Pt)
        ensures
            p == self.spec_center(),
    ;

    /// Check if the shape contains a point
    fn contains(&self, point: &Pt) -> (b: bool)
        requires
            self.spec_wf(),
        ensures
            b == self.spec_contains(*point),
    ;

    /// Check if the shape shares any space with another shape
    fn intersects(&self, other: &Self) -> (b: bool)
        requires
            self.spec_wf(),
            other.spec_wf(),
        ensures
            b == self.spec_intersects(other),
    ;

    /// Get the bounding rect of the shape
    fn rect(&self) -> (r: Rect)
        requires
            self.spec_wf(),
        ensures
            r == rect_new_spec(self.spec_start(), self.spec_end()),
            rect_wf(r),
    {
        proof {
            self.lemma_start_le_end();
            lemma_rect_new_wf(self.spec_start(), self.spec_end());
        }
        let s = self.start();
        let e = self.end();
        Rect::new(s, e)
    }

    /// Check if the shape fully contains a given rect, by testing both of its
    /// corners. For circles this corner test is only a conservative approximation.
    fn contains_rect(&self, rect: &Rect) -> (b: bool)
        requires
            self.spec_wf(),
        ensures
            b == (self.spec_contains(rect.start) && self.spec_contains(rect.end)),
    {
        let s = rect.start;
        let e = rect.end;
        self.contains(&s) && self.contains(&e)
    }
}

impl Rect {
    /// Create a new rect with a start and end point.
    /// The corners must be ordered component-wise.
    pub fn new(start: Pt, end: Pt) -> (r: Self)
        requires
            pt_le(start, end),
        ensures
            r == rect_new_spec(start, end),
            rect_wf(r),
    {
        proof {
            lemma_rect_new_wf(start, end);
        }
        let center = Pt { x: midpoint(start.x, end.x), y: midpoint(start.y, end.y) };
        Rect { start, center, end }
    }

    /// Set the start point of the rect, keeping the cached center consistent.
    /// The new start must not pass the current end.
    pub fn set_start(&mut self, start: Pt)
        requires
            pt_le(start, old(self).end),
        ensures
            *final(self) == rect_new_spec(start, old(self).end),
            rect_wf(*final(self)),
    {
        proof {
            lemma_rect_new_wf(start, self.end);
        }
        self.start = start;
        self.center = Pt { x: midpoint(self.start.x, self.end.x), y: midpoint(self.start.y, self.end.y) };
    }

    /// Set the end point of the rect, keeping the cached center consistent.
    /// The new end must not pass the current start.
    pub fn set_end(&mut self, end: Pt)
        requires
            pt_le(old(self).start, end),
        ensures
            *final(self) == rect_new_spec(old(self).start, end),
            rect_wf(*final(self)),
    {
        proof {
            lemma_rect_new_wf(self.start, end);
        }
        self.end = end;
        self.center = Pt { x: midpoint(self.start.x, self.end.x), y: midpoint(self.start.y, self.end.y) };
    }
}

impl Shape for Rect {
    open spec fn spec_wf(&self) -> bool {
        rect_wf(*self)
    }

    open spec fn spec_start(&self) -> Pt {
        self.start
    }

    open spec fn spec_end(&self) -> Pt {
        self.end
    }

    open spec fn spec_center(&self) -> Pt {
        self.center
    }

    open spec fn spec_contains(&self, p: Pt) -> bool {
        rect_contains(*self, p)
    }

    open spec fn spec_intersects(&self, other: &Self) -> bool {
        rects_intersect(*self, *other)
    }

    open spec fn spec_corner_exact(&self) -> bool {
        true
    }

    proof fn lemma_contains_in_bounds(&self, p: Pt) {
    }

    proof fn lemma_start_le_end(&self) {
    }

    proof fn lemma_corner_exact(&self, r: Rect, p: Pt) {
    }

    fn start(&self) -> (p: Pt) {
        self.start
    }

    fn end(&self) -> (p: Pt) {
        self.end
    }

    fn center(&self) -> (p: Pt) {
        self.center
    }

    fn contains(&self, point: &Pt) -> (b: bool) {
        self.start.x <= point.x && point.x <= self.end.x && self.start.y <= point.y
            && point.y <= self.end.y
    }

    fn intersects(&self, other: &Self) -> (b: bool) {
        !(self.end.x < other.start.x || self.start.x > other.end.x || self.end.y < other.start.y
            || self.start.y > other.end.y)
    }
}

/// The quadrant of a rectangle with the given index, in the fixed order
/// top-left, top-right, bottom-left, bottom-right.
pub open spec fn quarter_spec(r: Rect, i: int) -> Rect {
    if i == 0 {
        rect_new_spec(r.start, r.center)
    } else if i == 1 {
        rect_new_spec(Pt { x: r.center.x, y: r.start.y }, Pt { x: r.end.x, y: r.center.y })
    } else if i == 2 {
        rect_new_spec(Pt { x: r.start.x, y: r.center.y }, Pt { x: r.center.x, y: r.end.y })
    } else {
        rect_new_spec(r.center, r.end)
    }
}

/// Whether quartering a rectangle makes progress: at least one side must span
/// two or more units, so that every quadrant is strictly smaller.
pub open spec fn rect_splittable(r: Rect) -> bool {
    r.end.x - r.start.x >= 2 || r.end.y - r.start.y >= 2
}

/// The combined side length of a rectangle; the termination measure of the
/// recursive tree operations.
pub open spec fn rect_size(r: Rect) -> int {
    (r.end.x - r.start.x) + (r.end.y - r.start.y)
}

/// Each quadrant of a well-formed rectangle is itself well formed and lies
/// within the rectangle.
pub proof fn lemma_quarter_wf(r: Rect, i: int)
    requires
        rect_wf(r),
        0 <= i < 4,
    ensures
        rect_wf(quarter_spec(r, i)),
        pt_le(r.start, quarter_spec(r, i).start),
        pt_le(quarter_spec(r, i).end, r.end),
        rect_size(quarter_spec(r, i)) <= rect_size(r),
        rect_splittable(r) ==> rect_size(quarter_spec(r, i)) < rect_size(r),
{
    lemma_wf_center_between(r);
    lemma_rect_new_wf(quarter_spec(r, i).start, quarter_spec(r, i).end);
    let sx = r.start.x as int;
    let ex = r.end.x as int;
    let sy = r.start.y as int;
    let ey = r.end.y as int;
    assert(2 * (mid(sx, ex) - sx) <= ex - sx && 2 * (ex - mid(sx, ex)) <= ex - sx + 1) by (nonlinear_arith)
        requires
            sx <= ex,
            mid(sx, ex) == sx + (ex - sx) / 2,
    ;
    assert(2 * (mid(sy, ey) - sy) <= ey - sy && 2 * (ey - mid(sy, ey)) <= ey - sy + 1) by (nonlinear_arith)
        requires
            sy <= ey,
            mid(sy, ey) == sy + (ey - sy) / 2,
    ;
}

/// The index of the first quadrant of `r` that contains `p`, in the fixed
/// quadrant order, or -1 when `p` lies outside `r` entirely.
pub open spec fn quad_of(r: Rect, p: Pt) -> int {
    if rect_contains(quarter_spec(r, 0), p) {
        0
    } else if rect_contains(quarter_spec(r, 1), p) {
        1
    } else if rect_contains(quarter_spec(r, 2), p) {
        2
    } else if rect_contains(quarter_spec(r, 3), p) {
        3
    } else {
        -1
    }
}

/// The four quadrants of a well-formed rectangle tile it exactly: a point of
/// the rectangle is routed to some quadrant, and a routed point lies both in
/// that quadrant and in the rectangle.
pub proof fn lemma_quad_of_routes(r: Rect, p: Pt)
    requires
        rect_wf(r),
    ensures
        rect_contains(r, p) <==> 0 <= quad_of(r, p) < 4,
        0 <= quad_of(r, p) < 4 ==> rect_contains(quarter_spec(r, quad_of(r, p)), p) && rect_contains(r, p),
{
    lemma_wf_center_between(r);
    lemma_quarter_wf(r, 0);
    lemma_quarter_wf(r, 1);
    lemma_quarter_wf(r, 2);
    lemma_quarter_wf(r, 3);
}

impl Rect {
    /// Whether quartering this rectangle makes progress.
    pub fn splittable(&self) -> (b: bool)
        ensures
            b == rect_splittable(*self),
    {
        (self.end.x as i128) - (self.start.x as i128) >= 2 || (self.end.y as i128) - (self.start.y
            as i128) >= 2
    }

    /// Quarter the rect to produce four smaller rects, in the fixed order
    /// top-left, top-right, bottom-left, bottom-right.
    pub fn quarter(&self) -> (q: [Self; 4])
        requires
            rect_wf(*self),
        ensures
            forall|i: int| 0 <= i < 4 ==> q[i] == quarter_spec(*self, i),
    {
        proof {
            lemma_wf_center_between(*self);
            lemma_quarter_wf(*self, 0);
            lemma_quarter_wf(*self, 1);
            lemma_quarter_wf(*self, 2);
            lemma_quarter_wf(*self, 3);
        }
        let q0 = Rect::new(self.start, self.center);
        let q1 = Rect::new(Pt { x: self.center.x, y: self.start.y }, Pt { x: self.end.x, y: self.center.y });
        let q2 = Rect::new(Pt { x: self.start.x, y: self.center.y }, Pt { x: self.center.x, y: self.end.y });
        let q3 = Rect::new(self.center, self.end);
        [q0, q1, q2, q3]
    }
}

impl<T: Point> Shape for T {
    open spec fn spec_wf(&self) -> bool {
        true
    }

    open spec fn spec_start(&self) -> Pt {
        self.pos()
    }

    open spec fn spec_end(&self) -> Pt {
        self.pos()
    }

    open spec fn spec_center(&self) -> Pt {
        self.pos()
    }

    open spec fn spec_contains(&self, p: Pt) -> bool {
        self.pos() == p
    }

    open spec fn spec_intersects(&self, other: &Self) -> bool {
        self.pos() == other.pos()
    }

    open spec fn spec_corner_exact(&self) -> bool {
        true
    }

    proof fn lemma_contains_in_bounds(&self, p: Pt) {
    }

    proof fn lemma_start_le_end(&self) {
    }

    proof fn lemma_corner_exact(&self, r: Rect, p: Pt) {
    }

    fn start(&self) -> (p: Pt) {
        self.point()
    }

    fn end(&self) -> (p: Pt) {
        self.point()
    }

    fn center(&self) -> (p: Pt) {
        self.point()
    }

    fn contains(&self, point: &Pt) -> (b: bool) {
        let q = self.point();
        q == *point
    }

    fn intersects(&self, other: &Self) -> (b: bool) {
        let a = self.point();
        let b = other.point();
        a == b
    }
}

/// Represents a circle defined by a center point and radius. Provides utility functions
/// for geometric calculations, particularly for interactions with the quadtree.
#[derive(Clone, Copy, Debug, PartialEq, Eq, Structural)]
pub struct Circle {
    pub center: Pt,
    pub radius: i64,
    pub start: Pt,
    pub end: Pt,
}

/// The squared distance between two points.
pub open spec fn dist_sq(a: Pt, b: Pt) -> int {
    (a.x - b.x) * (a.x - b.x) + (a.y - b.y) * (a.y - b.y)
}

/// A circle is well formed when its radius is not negative and its cached
/// bounding box is the square of side `2 * radius` around the center.
pub open spec fn circle_wf(c: Circle) -> bool {
    &&& c.radius >= 0
    &&& c.start.x == c.center.x - c.radius
    &&& c.start.y == c.center.y - c.radius
    &&& c.end.x == c.center.x + c.radius
    &&& c.end.y == c.center.y + c.radius
}

impl Circle {
    /// Create a new circle with a center point and radius. The radius must not
    /// be negative, and the bounding box must fit the coordinate range.
    pub fn new(center: Pt, radius: i64) -> (c: Self)
        requires
            radius >= 0,
            i64::MIN <= center.x - radius,
            center.x + radius <= i64::MAX,
            i64::MIN <= center.y - radius,
            center.y + radius <= i64::MAX,
        ensures
            circle_wf(c),
            c.center == center,
            c.radius == radius,
    {
        let start = Pt { x: center.x - radius, y: center.y - radius };
        let end = Pt { x: center.x + radius, y: center.y + radius };
        Circle { center, radius, start, end }
    }

    fn update_bounds(&mut self)
        requires
            old(self).radius >= 0,
            i64::MIN <= old(self).center.x - old(self).radius,
            old(self).center.x + old(self).radius <= i64::MAX,
            i64::MIN <= old(self).center.y - old(self).radius,
            old(self).center.y + old(self).radius <= i64::MAX,
        ensures
            circle_wf(*final(self)),
            final(self).center == old(self).center,
            final(self).radius == old(self).radius,
    {
        self.start = Pt { x: self.center.x - self.radius, y: self.center.y - self.radius };
        self.end = Pt { x: self.center.x + self.radius, y: self.center.y + self.radius };
    }

    /// Set the center point of the circle, keeping the cached bounds consistent.
    pub fn set_center(&mut self, center: Pt)
        requires
            old(self).radius >= 0,
            i64::MIN <= center.x - old(self).radius,
            center.x + old(self).radius <= i64::MAX,
            i64::MIN <= center.y - old(self).radius,
            center.y + old(self).radius <= i64::MAX,
        ensures
            circle_wf(*final(self)),
            final(self).center == center,
            final(self).radius == old(self).radius,
    {
        self.center = center;
        self.update_bounds();
    }

    /// Set the radius of the circle, keeping the cached bounds consistent.
    pub fn set_radius(&mut self, radius: i64)
        requires
            radius >= 0,
            i64::MIN <= old(self).center.x - radius,
            old(self).center.x + radius <= i64::MAX,
            i64::MIN <= old(self).center.y - radius,
            old(self).center.y + radius <= i64::MAX,
        ensures
            circle_wf(*final(self)),
            final(self).center == old(self).center,
            final(self).radius == radius,
    {
        self.radius = radius;
        self.update_bounds();
    }
}

/// Whether the squared distance between two points is at most `rr`.
fn dist_sq_le(a: Pt, b: Pt, rr: u128) -> (res: bool)
    ensures
        res == (dist_sq(a, b) <= rr),
{
    let dx: i128 = a.x as i128 - b.x as i128;
    let dy: i128 = a.y as i128 - b.y as i128;
    let ax: i128 = if dx < 0 {
        -dx
    } else {
        dx
    };
    let ay: i128 = if dy < 0 {
        -dy
    } else {
        dy
    };
    let axu: u128 = ax as u128;
    let ayu: u128 = ay as u128;
    proof {
        assert(axu * axu == (a.x - b.x) * (a.x - b.x) && axu * axu
            <= 0xffff_ffff_ffff_ffffu128 * 0xffff_ffff_ffff_ffffu128) by (nonlinear_arith)
            requires
                axu == if a.x - b.x < 0 { -(a.x - b.x) } else { a.x - b.x },
                axu <= 0xffff_ffff_ffff_ffffu128,
        ;
        assert(ayu * ayu == (a.y - b.y) * (a.y - b.y) && ayu * ayu
            <= 0xffff_ffff_ffff_ffffu128 * 0xffff_ffff_ffff_ffffu128) by (nonlinear_arith)
            requires
                ayu == if a.y - b.y < 0 { -(a.y - b.y) } else { a.y - b.y },
                ayu <= 0xffff_ffff_ffff_ffffu128,
        ;
    }
    let sx: u128 = axu * axu;
    let sy: u128 = ayu * ayu;
    if sx > u128::MAX - sy {
        false
    } else {
        sx + sy <= rr
    }
}

impl Shape for Circle {
    open spec fn spec_wf(&self) -> bool {
        circle_wf(*self)
    }

    open spec fn spec_start(&self) -> Pt {
        self.start
    }

    open spec fn spec_end(&self) -> Pt {
        self.end
    }

    open spec fn spec_center(&self) -> Pt {
        self.center
    }

    open spec fn spec_contains(&self, p: Pt) -> bool {
        dist_sq(self.center, p) <= self.radius * self.radius
    }

    open spec fn spec_intersects(&self, other: &Self) -> bool {
        dist_sq(self.center, other.center) <= (self.radius + other.radius) * (self.radius
            + other.radius)
    }

    open spec fn spec_corner_exact(&self) -> bool {
        false
    }

    proof fn lemma_contains_in_bounds(&self, p: Pt) {
        let dx = self.center.x - p.x;
        let dy = self.center.y - p.y;
        let rad = self.radius as int;
        assert(-rad <= dx <= rad && -rad <= dy <= rad) by (nonlinear_arith)
            requires
                dx * dx + dy * dy <= rad * rad,
                rad >= 0,
        ;
    }

    proof fn lemma_start_le_end(&self) {
    }

    proof fn lemma_corner_exact(&self, r: Rect, p: Pt) {
    }

    fn start(&self) -> (p: Pt) {
        self.start
    }

    fn end(&self) -> (p: Pt) {
        self.end
    }

    fn center(&self) -> (p: Pt) {
        self.center
    }

    fn contains(&self, point: &Pt) -> (b: bool) {
        let ru: u128 = self.radius as u128;
        proof {
            assert(ru * ru == self.radius * self.radius && ru * ru < u128::MAX) by (nonlinear_arith)
                requires
                    ru == self.radius,
                    0 <= ru <= 0x7fff_ffff_ffff_ffffu128,
            ;
        }
        let rr: u128 = ru * ru;
        dist_sq_le(self.center, *point, rr)
    }

    fn intersects(&self, other: &Self) -> (b: bool) {
        let rs: u128 = self.radius as u128 + other.radius as u128;
        proof {
            assert(rs * rs == (self.radius + other.radius) * (self.radius + other.radius) && rs * rs
                < u128::MAX) by (nonlinear_arith)
                requires
                    rs == self.radius + other.radius,
                    0 <= rs <= 0xffff_ffff_ffff_fffeu128,
            ;
        }
        let rr: u128 = rs * rs;
        dist_sq_le(self.center, other.center, rr)
    }
}

/// Midpoint of two machine coordinates, rounded towards the lower one.
fn midpoint(a: i64, b: i64) -> (m: i64)
    requires
        a <= b,
    ensures
        m == mid(a as int, b as int),
{
    proof {
        lemma_mid_between(a as int, b as int);
    }
    let d: i128 = (b as i128) - (a as i128);
    let du: u128 = d as u128;
    let h: u128 = du / 2;
    (a as i128 + h as i128) as i64
}

} // verus!
