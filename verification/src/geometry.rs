use vstd::prelude::*;

verus! {

/// An integer coordinate on the grid.
#[derive(Copy, Clone, Debug, PartialEq, Eq, Structural)]
pub struct Point {
    pub x: i32,
    pub y: i32,
}

/// A width and a height, both counted in grid cells.
#[derive(Copy, Clone, Debug, PartialEq, Eq, Structural)]
pub struct Dimensions {
    pub width: i32,
    pub height: i32,
}

/// An axis-aligned rectangle; canonical values have `w >= 0` and `h >= 0`.
#[derive(Copy, Clone, Debug, PartialEq, Eq, Structural)]
pub struct Rect {
    pub x: i32,
    pub y: i32,
    pub w: i32,
    pub h: i32,
}

/// Half-open containment: `x <= px < x + w` and `y <= py < y + h`, stated
/// over unbounded integers.
pub open spec fn rect_contains(r: Rect, px: int, py: int) -> bool {
    r.x <= px && r.y <= py && px < r.x + r.w && py < r.y + r.h
}

/// The canonical rectangle spanned by two arbitrary corner points: the
/// smaller coordinate becomes the origin along each axis, so the extents
/// come out non-negative whichever corner was given first.
pub open spec fn rect_corners(a: Point, b: Point) -> Rect {
    let x0 = if a.x <= b.x { a.x } else { b.x };
    let y0 = if a.y <= b.y { a.y } else { b.y };
    let x1 = if a.x <= b.x { b.x } else { a.x };
    let y1 = if a.y <= b.y { b.y } else { a.y };
    Rect { x: x0, y: y0, w: (x1 - x0) as i32, h: (y1 - y0) as i32 }
}

impl Rect {
    /// Build the canonical rectangle from two corners, in either order.
    pub fn from_points(a: Point, b: Point) -> (r: Rect)
        requires
            a.x - b.x <= i32::MAX,
            b.x - a.x <= i32::MAX,
            a.y - b.y <= i32::MAX,
            b.y - a.y <= i32::MAX,
        ensures
            r == rect_corners(a, b),
            r.w >= 0,
            r.h >= 0,
    {
        let x0 = if a.x <= b.x { a.x } else { b.x };
        let y0 = if a.y <= b.y { a.y } else { b.y };
        let x1 = if a.x <= b.x { b.x } else { a.x };
        let y1 = if a.y <= b.y { b.y } else { a.y };
        Rect { x: x0, y: y0, w: x1 - x0, h: y1 - y0 }
    }

    /// Signed area; zero exactly when the rectangle is degenerate.
    pub fn area(&self) -> (a: i32)
        requires
            i32::MIN <= self.w * self.h <= i32::MAX,
        ensures
            a == self.w * self.h,
    {
        self.w * self.h
    }

    /// Half-open containment test.
    pub fn contains(&self, point: Point) -> (c: bool)
        ensures
            c == rect_contains(*self, point.x as int, point.y as int),
    {
        let px = point.x as i64;
        let py = point.y as i64;
        (self.x as i64) <= px && (self.y as i64) <= py && px < (self.x as i64) + (self.w as i64)
            && py < (self.y as i64) + (self.h as i64)
    }
}

/// Law: the rectangle spanned by two corners does not depend on the order in
/// which the corners are given, along either axis independently.
pub proof fn lemma_rect_corners_symmetric(a: Point, b: Point)
    ensures
        rect_corners(a, b) == rect_corners(b, a),
        rect_corners(a, b) == rect_corners((Point { x: a.x, y: b.y }), (Point { x: b.x, y: a.y })),
{
}

/// Law: whenever the corner spans fit in the coordinate type, the rectangle
/// spanned by two corners has non-negative width and height.
pub proof fn lemma_rect_corners_nonneg(a: Point, b: Point)
    requires
        a.x - b.x <= i32::MAX,
        b.x - a.x <= i32::MAX,
        a.y - b.y <= i32::MAX,
        b.y - a.y <= i32::MAX,
    ensures
        rect_corners(a, b).w >= 0,
        rect_corners(a, b).h >= 0,
{
}

} // verus!
