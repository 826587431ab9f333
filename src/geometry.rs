//! Points, rectangles and the quadrant split of a rectangle.
use vstd::prelude::*;

verus! {

/// A point of the plane in integer coordinates.
#[derive(Clone, Copy, Debug, PartialEq, Eq, Structural)]
pub struct Point {
    pub x: i64,
    pub y: i64,
}

impl Point {
    pub fn new(x: i64, y: i64) -> (p: Point)
        ensures
            p.x == x,
            p.y == y,
    {
        Point { x, y }
    }
}

/// An axis-aligned rectangle with origin `(x, y)`, width `w` and height `h`.
#[derive(Clone, Copy, Debug, PartialEq, Eq, Structural)]
pub struct Rect {
    pub x: i64,
    pub y: i64,
    pub w: i64,
    pub h: i64,
}

impl Rect {
    /// A usable region: not empty, and its far edges are representable.
    pub open spec fn wf(self) -> bool {
        &&& self.w >= 1
        &&& self.h >= 1
        &&& self.x + self.w <= i64::MAX
        &&& self.y + self.h <= i64::MAX
    }

    /// The half-open test `[x, x + w) x [y, y + h)` that decides where a point is stored.
    pub open spec fn holds_point(self, p: Point) -> bool {
        &&& self.x <= p.x < self.x + self.w
        &&& self.y <= p.y < self.y + self.h
    }

    /// The closed test `[x, x + w] x [y, y + h]` used when locating a coordinate.
    pub open spec fn covers(self, x: int, y: int) -> bool {
        &&& self.x <= x <= self.x + self.w
        &&& self.y <= y <= self.y + self.h
    }

    /// `self` lies inside `outer` (edges may coincide).
    pub open spec fn within(self, outer: Rect) -> bool {
        &&& outer.x <= self.x
        &&& outer.y <= self.y
        &&& self.x + self.w <= outer.x + outer.w
        &&& self.y + self.h <= outer.y + outer.h
    }

    pub open spec fn area(self) -> int {
        self.w * self.h
    }

    /// Both sides can be halved into non-empty parts.
    pub open spec fn splittable(self) -> bool {
        self.w >= 2 && self.h >= 2
    }

    /// Quadrant `i` in the fixed order top-left, top-right, bottom-left,
    /// bottom-right. The left and top parts take the rounded-down half.
    pub open spec fn quadrant(self, i: int) -> Rect {
        let hw = self.w / 2;
        let hh = self.h / 2;
        if i == 0 {
            Rect { x: self.x, y: self.y, w: hw as i64, h: hh as i64 }
        } else if i == 1 {
            Rect { x: (self.x + hw) as i64, y: self.y, w: (self.w - hw) as i64, h: hh as i64 }
        } else if i == 2 {
            Rect { x: self.x, y: (self.y + hh) as i64, w: hw as i64, h: (self.h - hh) as i64 }
        } else {
            Rect {
                x: (self.x + hw) as i64,
                y: (self.y + hh) as i64,
                w: (self.w - hw) as i64,
                h: (self.h - hh) as i64,
            }
        }
    }

    /// Index of the first quadrant whose half-open test takes `p`.
    pub open spec fn quadrant_index(self, p: Point) -> int {
        if self.quadrant(0).holds_point(p) {
            0
        } else if self.quadrant(1).holds_point(p) {
            1
        } else if self.quadrant(2).holds_point(p) {
            2
        } else {
            3
        }
    }

    pub fn new(x: i64, y: i64, w: i64, h: i64) -> (r: Rect)
        ensures
            r == (Rect { x, y, w, h }),
    {
        Rect { x, y, w, h }
    }

    pub fn contains_point(&self, p: &Point) -> (r: bool)
        requires
            self.wf(),
        ensures
            r == self.holds_point(*p),
    {
        p.x >= self.x && p.x < self.x + self.w && p.y >= self.y && p.y < self.y + self.h
    }

    pub fn covers_coord(&self, x: i64, y: i64) -> (r: bool)
        requires
            self.wf(),
        ensures
            r == self.covers(x as int, y as int),
    {
        x >= self.x && x <= self.x + self.w && y >= self.y && y <= self.y + self.h
    }

    pub fn is_splittable(&self) -> (r: bool)
        ensures
            r == self.splittable(),
    {
        self.w >= 2 && self.h >= 2
    }

    /// The four quadrants, in the fixed order.
    pub fn quadrants(&self) -> (q: [Rect; 4])
        requires
            self.wf(),
            self.splittable(),
        ensures
            forall|i: int| 0 <= i < 4 ==> #[trigger] q@[i] == self.quadrant(i),
    {
        let hw = self.w / 2;
        let hh = self.h / 2;
        [
            Rect { x: self.x, y: self.y, w: hw, h: hh },
            Rect { x: self.x + hw, y: self.y, w: self.w - hw, h: hh },
            Rect { x: self.x, y: self.y + hh, w: hw, h: self.h - hh },
            Rect { x: self.x + hw, y: self.y + hh, w: self.w - hw, h: self.h - hh },
        ]
    }
}

/// The four quadrants of a splittable rectangle tile it exactly: each is a
/// usable region inside the parent, every point of the parent lies in exactly
/// one of them, no point outside the parent lies in any, the closed parent is
/// the union of the closed quadrants, and their areas add up to the parent's.
pub proof fn lemma_quadrants_tile(r: Rect)
    requires
        r.wf(),
        r.splittable(),
    ensures
        forall|i: int| 0 <= i < 4 ==> (#[trigger] r.quadrant(i)).wf() && r.quadrant(i).within(r),
        forall|p: Point|
            #[trigger] r.holds_point(p) <==> (r.quadrant(0).holds_point(p) || r.quadrant(1).holds_point(p)
                || r.quadrant(2).holds_point(p) || r.quadrant(3).holds_point(p)),
        forall|p: Point, i: int, j: int|
            0 <= i < j < 4 && #[trigger] r.quadrant(i).holds_point(p) ==> !#[trigger] r.quadrant(j).holds_point(p),
        forall|p: Point| #[trigger] r.holds_point(p) ==> r.quadrant(r.quadrant_index(p)).holds_point(p),
        forall|x: int, y: int|
            #[trigger] r.covers(x, y) <==> (r.quadrant(0).covers(x, y) || r.quadrant(1).covers(x, y)
                || r.quadrant(2).covers(x, y) || r.quadrant(3).covers(x, y)),
        r.quadrant(0).area() + r.quadrant(1).area() + r.quadrant(2).area() + r.quadrant(3).area() == r.area(),
{
    let hw = r.w / 2;
    let hh = r.h / 2;
    let w = r.w as int;
    let h = r.h as int;
    assert(hw * hh + (w - hw) * hh + hw * (h - hh) + (w - hw) * (h - hh) == w * h) by (nonlinear_arith);
}

} // verus!
