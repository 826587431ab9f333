//! The quadtree: a tree of regions whose leaves hold at most `MAX_SIZE`
//! points and whose internal nodes own exactly four quadrant children.
use vstd::prelude::*;

use crate::geometry::{lemma_quadrants_tile, Point, Rect};

verus! {

/// How many points a leaf holds before it is split.
pub const MAX_SIZE: usize = 4;

/// What a node holds: its own points, or four children in the order
/// top-left, top-right, bottom-left, bottom-right.
pub enum Region {
    Leaf { points: Vec<Point> },
    Internal { tl: Box<Quadtree>, tr: Box<Quadtree>, bl: Box<Quadtree>, br: Box<Quadtree> },
}

/// A node of the tree together with the rectangle it covers. Coordinates
/// are integers: a rectangle is halved with the left and top parts rounded
/// down, and a rectangle narrower or lower than 2 is never halved, so a full
/// leaf of that size refuses further points.
pub struct Quadtree {
    pub bounds: Rect,
    pub region: Region,
}

/// The points of `pts` that `r` takes, in their order.
pub open spec fn points_in(pts: Seq<Point>, r: Rect) -> Seq<Point>
    decreases pts.len(),
{
    if pts.len() == 0 {
        Seq::empty()
    } else {
        let rest = points_in(pts.drop_last(), r);
        if r.holds_point(pts.last()) {
            rest.push(pts.last())
        } else {
            rest
        }
    }
}

/// Whether a leaf over `r` holding `pts` takes `p` (which `r` holds): it has
/// room, or it can be split and the quadrant that `p` falls in, holding the
/// points of `pts` that fall there, takes it.
pub open spec fn room_for(r: Rect, pts: Seq<Point>, p: Point) -> bool
    decreases r.w + r.h,
{
    if pts.len() < MAX_SIZE {
        true
    } else if r.splittable() {
        let q = r.quadrant(r.quadrant_index(p));
        room_for(q, points_in(pts, q), p)
    } else {
        false
    }
}

/// A point is among those of `pts` that `r` takes iff it is in `pts` and `r` holds it.
proof fn lemma_points_in(pts: Seq<Point>, r: Rect)
    ensures
        points_in(pts, r).len() <= pts.len(),
        forall|q: Point| #[trigger] points_in(pts, r).contains(q) <==> (pts.contains(q) && r.holds_point(q)),
    decreases pts.len(),
{
    if pts.len() > 0 {
        lemma_points_in(pts.drop_last(), r);
        assert forall|q: Point| pts.contains(q) <==> (pts.drop_last().contains(q) || q == pts.last()) by {
            if pts.contains(q) {
                let k = choose|k: int| 0 <= k < pts.len() && pts[k] == q;
                if k < pts.len() - 1 {
                    assert(pts.drop_last()[k] == q);
                }
            }
            if pts.drop_last().contains(q) {
                let k = choose|k: int| 0 <= k < pts.drop_last().len() && pts.drop_last()[k] == q;
                assert(pts[k] == q);
            }
            if q == pts.last() {
                assert(pts[pts.len() - 1] == q);
            }
        }
        let rest = points_in(pts.drop_last(), r);
        assert forall|q: Point| rest.push(pts.last()).contains(q) <==> (rest.contains(q) || q == pts.last()) by {
            let pushed = rest.push(pts.last());
            if pushed.contains(q) {
                let k = choose|k: int| 0 <= k < pushed.len() && pushed[k] == q;
                if k < rest.len() {
                    assert(rest[k] == q);
                }
            }
            if rest.contains(q) {
                let k = choose|k: int| 0 <= k < rest.len() && rest[k] == q;
                assert(pushed[k] == q);
            }
            if q == pts.last() {
                assert(pushed[rest.len() as int] == q);
            }
        }
        assert forall|q: Point| #[trigger] points_in(pts, r).contains(q) <==> (pts.contains(q) && r.holds_point(q)) by {
            assert(rest.contains(q) <==> (pts.drop_last().contains(q) && r.holds_point(q)));
        }
    }
}

/// Every tree refines itself.
pub proof fn lemma_refines_refl(t: Quadtree)
    ensures
        t.refines(t),
    decreases t,
{
    match t.region {
        Region::Leaf { .. } => {},
        Region::Internal { tl, tr, bl, br } => {
            lemma_refines_refl(*tl);
            lemma_refines_refl(*tr);
            lemma_refines_refl(*bl);
            lemma_refines_refl(*br);
        },
    }
}

/// Splits `points` among the four quadrants of `r`, keeping their order.
fn distribute(points: &Vec<Point>, r: &Rect) -> (parts: (Vec<Point>, Vec<Point>, Vec<Point>, Vec<Point>))
    requires
        r.wf(),
        r.splittable(),
    ensures
        parts.0@ == points_in(points@, r.quadrant(0)),
        parts.1@ == points_in(points@, r.quadrant(1)),
        parts.2@ == points_in(points@, r.quadrant(2)),
        parts.3@ == points_in(points@, r.quadrant(3)),
{
    let quads = r.quadrants();
    let mut a: Vec<Point> = Vec::new();
    let mut b: Vec<Point> = Vec::new();
    let mut c: Vec<Point> = Vec::new();
    let mut d: Vec<Point> = Vec::new();
    let mut k: usize = 0;
    proof {
        lemma_quadrants_tile(*r);
    }
    while k < points.len()
        invariant
            k <= points.len(),
            r.wf(),
            r.splittable(),
            forall|i: int| 0 <= i < 4 ==> #[trigger] quads@[i] == r.quadrant(i),
            forall|p: Point, i: int, j: int|
                0 <= i < j < 4 && #[trigger] r.quadrant(i).holds_point(p) ==> !#[trigger] r.quadrant(j).holds_point(p),
            a@ == points_in(points@.take(k as int), r.quadrant(0)),
            b@ == points_in(points@.take(k as int), r.quadrant(1)),
            c@ == points_in(points@.take(k as int), r.quadrant(2)),
            d@ == points_in(points@.take(k as int), r.quadrant(3)),
        decreases points.len() - k,
    {
        let p = points[k];
        assert(points@.take(k + 1).drop_last() =~= points@.take(k as int));
        assert(points@.take(k + 1).last() == p);
        assert(quads@[0] == r.quadrant(0));
        assert(quads@[1] == r.quadrant(1));
        assert(quads@[2] == r.quadrant(2));
        assert(quads@[3] == r.quadrant(3));
        if quads[0].contains_point(&p) {
            a.push(p);
        } else if quads[1].contains_point(&p) {
            b.push(p);
        } else if quads[2].contains_point(&p) {
            c.push(p);
        } else if quads[3].contains_point(&p) {
            d.push(p);
        }
        k = k + 1;
    }
    assert(points@.take(points.len() as int) =~= points@);
    (a, b, c, d)
}

impl Quadtree {
    /// The structural invariant: every node covers a usable rectangle; a leaf
    /// holds at most `MAX_SIZE` points, all inside its rectangle; an internal
    /// node is splittable and its children cover its quadrants, in order.
    pub open spec fn wf(self) -> bool
        decreases self,
    {
        &&& self.bounds.wf()
        &&& match self.region {
            Region::Leaf { points } => {
                &&& points.len() <= MAX_SIZE
                &&& forall|q: Point| #[trigger] points@.contains(q) ==> self.bounds.holds_point(q)
            },
            Region::Internal { tl, tr, bl, br } => {
                &&& self.bounds.splittable()
                &&& tl.bounds == self.bounds.quadrant(0)
                &&& tr.bounds == self.bounds.quadrant(1)
                &&& bl.bounds == self.bounds.quadrant(2)
                &&& br.bounds == self.bounds.quadrant(3)
                &&& tl.wf()
                &&& tr.wf()
                &&& bl.wf()
                &&& br.wf()
            },
        }
    }

    pub open spec fn is_leaf(self) -> bool {
        self.region is Leaf
    }

    /// Child `i` of an internal node, in the fixed order (a leaf is its own stand-in).
    pub open spec fn child(self, i: int) -> Quadtree {
        match self.region {
            Region::Leaf { .. } => self,
            Region::Internal { tl, tr, bl, br } => {
                if i == 0 {
                    *tl
                } else if i == 1 {
                    *tr
                } else if i == 2 {
                    *bl
                } else {
                    *br
                }
            },
        }
    }

    /// The points a leaf holds, in insertion order (none for an internal node).
    pub open spec fn leaf_points(self) -> Seq<Point> {
        match self.region {
            Region::Leaf { points } => points@,
            Region::Internal { .. } => Seq::empty(),
        }
    }

    /// What `insert(p)` on `before` leaves behind as `after`, returning `r`.
    /// The tree stays well formed and only grows; `r` says whether `p` was
    /// accepted; the stored points are the old ones plus `p` when accepted; a
    /// point outside the rectangle changes nothing; a leaf with room just
    /// appends `p`; a full leaf that can be halved becomes internal.
    pub open spec fn inserted(before: Quadtree, after: Quadtree, p: Point, r: bool) -> bool {
        &&& after.wf()
        &&& r == before.accepts(p)
        &&& before.refines(after)
        &&& forall|q: Point| #[trigger] after.has(q) <==> (before.has(q) || (r && q == p))
        &&& !before.bounds.holds_point(p) ==> after == before
        &&& (before.is_leaf() && before.bounds.holds_point(p) && before.leaf_points().len() < MAX_SIZE)
            ==> (after.is_leaf() && after.leaf_points() == before.leaf_points().push(p))
        &&& (before.is_leaf() && before.bounds.holds_point(p) && before.leaf_points().len() == MAX_SIZE
            && before.bounds.splittable()) ==> !after.is_leaf()
    }

    /// `p` is stored in this node or in one of its descendants.
    pub open spec fn has(self, p: Point) -> bool
        decreases self,
    {
        match self.region {
            Region::Leaf { points } => points@.contains(p),
            Region::Internal { tl, tr, bl, br } => tl.has(p) || tr.has(p) || bl.has(p) || br.has(p),
        }
    }

    /// The rectangle of the deepest node whose closed rectangle covers
    /// `(x, y)`; children are tried before the node itself, in order.
    pub open spec fn located(self, x: int, y: int) -> Option<Rect>
        decreases self,
    {
        let own = if self.bounds.covers(x, y) {
            Some(self.bounds)
        } else {
            None
        };
        match self.region {
            Region::Leaf { .. } => own,
            Region::Internal { tl, tr, bl, br } => {
                if tl.located(x, y) is Some {
                    tl.located(x, y)
                } else if tr.located(x, y) is Some {
                    tr.located(x, y)
                } else if bl.located(x, y) is Some {
                    bl.located(x, y)
                } else if br.located(x, y) is Some {
                    br.located(x, y)
                } else {
                    own
                }
            },
        }
    }

    /// Whether `insert(p)` stores `p`: `p` is inside, and the leaf it falls
    /// in has room for it, possibly after splitting.
    pub open spec fn accepts(self, p: Point) -> bool
        decreases self,
    {
        &&& self.bounds.holds_point(p)
        &&& match self.region {
            Region::Leaf { points } => room_for(self.bounds, points@, p),
            Region::Internal { tl, tr, bl, br } => tl.accepts(p) || tr.accepts(p) || bl.accepts(p)
                || br.accepts(p),
        }
    }

    /// `later` is `self` with some leaves replaced by subtrees over the same
    /// rectangles: the shape only grows, and no node changes its rectangle.
    pub open spec fn refines(self, later: Quadtree) -> bool
        decreases self,
    {
        &&& self.bounds == later.bounds
        &&& match self.region {
            Region::Leaf { .. } => true,
            Region::Internal { tl, tr, bl, br } => match later.region {
                Region::Leaf { .. } => false,
                Region::Internal { tl: tl2, tr: tr2, bl: bl2, br: br2 } => {
                    &&& tl.refines(*tl2)
                    &&& tr.refines(*tr2)
                    &&& bl.refines(*bl2)
                    &&& br.refines(*br2)
                },
            },
        }
    }

    /// An empty index over the rectangle `(x, y, w, h)`. The rectangle must
    /// be non-empty (`w > 0`, `h > 0`) and its far edges representable.
    pub fn new(x: i64, y: i64, w: i64, h: i64) -> (t: Quadtree)
        requires
            w > 0,
            h > 0,
            x + w <= i64::MAX,
            y + h <= i64::MAX,
        ensures
            t.wf(),
            t.bounds == (Rect { x, y, w, h }),
            t.region matches Region::Leaf { points } && points@.len() == 0,
            forall|p: Point| !t.has(p),
    {
        Quadtree { bounds: Rect { x, y, w, h }, region: Region::Leaf { points: Vec::new() } }
    }

    /// Splits a leaf that can be halved into four leaf children over its
    /// quadrants, handing each stored point to the child whose quadrant takes
    /// it. An internal node, or a leaf too small to halve, is left unchanged.
    pub fn divide(&mut self)
        requires
            old(self).wf(),
        ensures
            final(self).wf(),
            old(self).refines(*final(self)),
            forall|q: Point| #[trigger] final(self).has(q) == old(self).has(q),
            (old(self).is_leaf() && old(self).bounds.splittable()) ==> {
                &&& !final(self).is_leaf()
                &&& forall|i: int|
                    0 <= i < 4 ==> (#[trigger] final(self).child(i)).is_leaf() && final(self).child(i).leaf_points()
                        == points_in(old(self).leaf_points(), old(self).bounds.quadrant(i))
            },
            !(old(self).is_leaf() && old(self).bounds.splittable()) ==> *final(self) == *old(self),
    {
        if !self.bounds.is_splittable() {
            proof {
                lemma_refines_refl(*self);
            }
            return;
        }
        let parts = match &self.region {
            Region::Leaf { points } => distribute(points, &self.bounds),
            Region::Internal { .. } => {
                proof {
                    lemma_refines_refl(*self);
                }
                return;
            },
        };
        let ghost pts = self.leaf_points();
        let ghost b = self.bounds;
        proof {
            lemma_quadrants_tile(b);
            lemma_points_in(pts, b.quadrant(0));
            lemma_points_in(pts, b.quadrant(1));
            lemma_points_in(pts, b.quadrant(2));
            lemma_points_in(pts, b.quadrant(3));
        }
        let quads = self.bounds.quadrants();
        assert(quads@[0] == b.quadrant(0));
        assert(quads@[1] == b.quadrant(1));
        assert(quads@[2] == b.quadrant(2));
        assert(quads@[3] == b.quadrant(3));
        let (a, bb, c, d) = parts;
        let tl = Quadtree { bounds: quads[0], region: Region::Leaf { points: a } };
        let tr = Quadtree { bounds: quads[1], region: Region::Leaf { points: bb } };
        let bl = Quadtree { bounds: quads[2], region: Region::Leaf { points: c } };
        let br = Quadtree { bounds: quads[3], region: Region::Leaf { points: d } };
        proof {
            assert forall|i: int| 0 <= i < 4 implies (#[trigger] b.quadrant(i)).wf() by {}
            assert(tl.wf() && tr.wf() && bl.wf() && br.wf());
            assert forall|q: Point| pts.contains(q) == (tl.has(q) || tr.has(q) || bl.has(q) || br.has(q)) by {}
        }
        self.region = Region::Internal {
            tl: Box::new(tl),
            tr: Box::new(tr),
            bl: Box::new(bl),
            br: Box::new(br),
        };
    }

    /// Offers `p` to this node. A point outside the half-open rectangle is
    /// refused with no change. A leaf with room appends it. A full leaf is
    /// split first, if it can be halved, and refuses `p` otherwise. An
    /// internal node offers `p` to its children in order until one takes it.
    pub fn insert(&mut self, p: Point) -> (r: bool)
        requires
            old(self).wf(),
        ensures
            Self::inserted(*old(self), *final(self), p, r),
        decreases old(self).bounds.w + old(self).bounds.h,
    {
        if !self.bounds.contains_point(&p) {
            proof {
                lemma_refines_refl(*self);
            }
            return false;
        }
        let ghost before = *self;
        let mut region = Region::Leaf { points: Vec::new() };
        std::mem::swap(&mut self.region, &mut region);
        match region {
            Region::Leaf { mut points } => {
                if points.len() < MAX_SIZE {
                    points.push(p);
                    self.region = Region::Leaf { points };
                    proof {
                        assert forall|q: Point| #[trigger] self.has(q) <==> (before.has(q) || q == p) by {
                            if before.has(q) {
                                let k = choose|k: int| 0 <= k < before.leaf_points().len() && before.leaf_points()[k] == q;
                                assert(self.leaf_points()[k] == q);
                            }
                            if q == p {
                                assert(self.leaf_points()[before.leaf_points().len() as int] == q);
                            }
                            if self.has(q) {
                                let k = choose|k: int| 0 <= k < self.leaf_points().len() && self.leaf_points()[k] == q;
                                if k < before.leaf_points().len() {
                                    assert(before.leaf_points()[k] == q);
                                }
                            }
                        }
                        assert forall|q: Point| #[trigger] self.leaf_points().contains(q) implies self.bounds.holds_point(q) by {
                            assert(self.has(q));
                        }
                        assert(self.leaf_points().len() <= MAX_SIZE);
                        assert(self.wf());
                    }
                    return true;
                }
                self.region = Region::Leaf { points };
                if !self.bounds.is_splittable() {
                    return false;
                }
                self.divide();
                proof {
                    let b = before.bounds;
                    lemma_quadrants_tile(b);
                    let j = b.quadrant_index(p);
                    assert(self.child(j).accepts(p) == before.accepts(p));
                    assert(self.accepts(p) == (self.child(0).accepts(p) || self.child(1).accepts(p)
                        || self.child(2).accepts(p) || self.child(3).accepts(p)));
                    assert(self.accepts(p) == before.accepts(p));
                }
            },
            other => {
                self.region = other;
            },
        }
        let ghost mid = *self;
        proof {
            lemma_quadrants_tile(mid.bounds);
        }
        let mut region = Region::Leaf { points: Vec::new() };
        std::mem::swap(&mut self.region, &mut region);
        match region {
            Region::Internal { mut tl, mut tr, mut bl, mut br } => {
                let ghost olds = seq![*tl, *tr, *bl, *br];
                let r = if (&mut *tl).insert(p) {
                    true
                } else if (&mut *tr).insert(p) {
                    true
                } else if (&mut *bl).insert(p) {
                    true
                } else {
                    (&mut *br).insert(p)
                };
                proof {
                    lemma_refines_refl(*tl);
                    lemma_refines_refl(*tr);
                    lemma_refines_refl(*bl);
                    lemma_refines_refl(*br);
                }
                self.region = Region::Internal { tl, tr, bl, br };
                proof {
                    assert forall|q: Point| #[trigger] self.has(q) <==> (before.has(q) || (r && q == p)) by {
                        assert(mid.has(q) == before.has(q));
                        assert(mid.has(q) == (olds[0].has(q) || olds[1].has(q) || olds[2].has(q) || olds[3].has(q)));
                        assert(tl.has(q) == (olds[0].has(q) || (olds[0].accepts(p) && q == p)));
                        assert(tr.has(q) == (olds[1].has(q) || (olds[1].accepts(p) && q == p)));
                        assert(bl.has(q) == (olds[2].has(q) || (olds[2].accepts(p) && q == p)));
                        assert(br.has(q) == (olds[3].has(q) || (olds[3].accepts(p) && q == p)));
                    }
                }
                r
            },
            Region::Leaf { points } => {
                self.region = Region::Leaf { points };
                false
            },
        }
    }

    /// Whether `p` is stored anywhere in the tree.
    pub fn contains(&self, p: &Point) -> (r: bool)
        requires
            self.wf(),
        ensures
            r == self.has(*p),
        decreases self,
    {
        match &self.region {
            Region::Leaf { points } => {
                let mut k: usize = 0;
                while k < points.len()
                    invariant
                        self.has(*p) == points@.contains(*p),
                        k <= points.len(),
                        forall|j: int| 0 <= j < k ==> points@[j] != *p,
                    decreases points.len() - k,
                {
                    if points[k] == *p {
                        assert(points@[k as int] == *p);
                        return true;
                    }
                    k = k + 1;
                }
                false
            },
            Region::Internal { tl, tr, bl, br } => {
                tl.contains(p) || tr.contains(p) || bl.contains(p) || br.contains(p)
            },
        }
    }

    /// The rectangle of the deepest node whose closed rectangle covers
    /// `(x, y)`, or `None` where `(x, y)` lies outside the whole domain.
    /// Children are tried first, in order, so on an edge shared by two
    /// quadrants the earlier one wins. The test is closed on all four edges,
    /// unlike the half-open test of `insert`: a coordinate on the far edge of
    /// the domain is located although no point there can be stored.
    pub fn locate(&self, x: i64, y: i64) -> (r: Option<Rect>)
        requires
            self.wf(),
        ensures
            r == self.located(x as int, y as int),
        decreases self,
    {
        match &self.region {
            Region::Leaf { .. } => {},
            Region::Internal { tl, tr, bl, br } => {
                let a = tl.locate(x, y);
                if a.is_some() {
                    return a;
                }
                let b = tr.locate(x, y);
                if b.is_some() {
                    return b;
                }
                let c = bl.locate(x, y);
                if c.is_some() {
                    return c;
                }
                let d = br.locate(x, y);
                if d.is_some() {
                    return d;
                }
            },
        }
        if self.bounds.covers_coord(x, y) {
            Some(self.bounds)
        } else {
            None
        }
    }
}

/// A point that `insert` accepted is stored afterwards, and every point stored
/// before is still stored: insertion never loses a point.
pub proof fn lemma_insert_keeps_points(before: Quadtree, after: Quadtree, p: Point, r: bool, q: Point)
    requires
        Quadtree::inserted(before, after, p, r),
    ensures
        r ==> after.has(p),
        before.has(q) ==> after.has(q),
{
    assert(after.has(p) <==> (before.has(p) || (r && p == p)));
    assert(after.has(q) <==> (before.has(q) || (r && q == p)));
}

/// A point outside the rectangle is refused and leaves the tree as it was.
pub proof fn lemma_outside_point_refused(before: Quadtree, after: Quadtree, p: Point, r: bool)
    requires
        Quadtree::inserted(before, after, p, r),
        !before.bounds.holds_point(p),
    ensures
        !r,
        after == before,
{
}

/// Offering one more point to a full leaf that can be halved turns it into an
/// internal node, and all the points it held are still stored.
pub proof fn lemma_full_leaf_splits(before: Quadtree, after: Quadtree, p: Point, r: bool)
    requires
        before.wf(),
        before.is_leaf(),
        before.leaf_points().len() == MAX_SIZE,
        before.bounds.holds_point(p),
        before.bounds.splittable(),
        Quadtree::inserted(before, after, p, r),
    ensures
        !after.is_leaf(),
        forall|q: Point| before.has(q) ==> #[trigger] after.has(q),
{
}

/// Once internal, a node stays internal in every later tree: a split happens
/// at most once per node.
pub proof fn lemma_split_is_permanent(before: Quadtree, after: Quadtree)
    requires
        !before.is_leaf(),
        before.refines(after),
    ensures
        !after.is_leaf(),
{
}

/// Growth composes: a tree grown from a grown tree is grown from the first.
pub proof fn lemma_refines_trans(a: Quadtree, b: Quadtree, c: Quadtree)
    requires
        a.refines(b),
        b.refines(c),
    ensures
        a.refines(c),
    decreases a,
{
    match a.region {
        Region::Leaf { .. } => {},
        Region::Internal { tl, tr, bl, br } => {
            lemma_refines_trans(*tl, b.child(0), c.child(0));
            lemma_refines_trans(*tr, b.child(1), c.child(1));
            lemma_refines_trans(*bl, b.child(2), c.child(2));
            lemma_refines_trans(*br, b.child(3), c.child(3));
        },
    }
}

/// The children of an internal node tile its rectangle: each lies inside it,
/// every point of the parent lies in exactly one child, and the areas add up.
pub proof fn lemma_children_tile(t: Quadtree)
    requires
        t.wf(),
        !t.is_leaf(),
    ensures
        forall|i: int| 0 <= i < 4 ==> (#[trigger] t.child(i)).bounds.within(t.bounds),
        forall|p: Point|
            #[trigger] t.bounds.holds_point(p) <==> (t.child(0).bounds.holds_point(p) || t.child(1).bounds.holds_point(p)
                || t.child(2).bounds.holds_point(p) || t.child(3).bounds.holds_point(p)),
        forall|p: Point, i: int, j: int|
            0 <= i < j < 4 && #[trigger] t.child(i).bounds.holds_point(p) ==> !#[trigger] t.child(j).bounds.holds_point(p),
        t.child(0).bounds.area() + t.child(1).bounds.area() + t.child(2).bounds.area() + t.child(3).bounds.area()
            == t.bounds.area(),
{
    lemma_quadrants_tile(t.bounds);
    assert forall|i: int| 0 <= i < 4 implies (#[trigger] t.child(i)).bounds == t.bounds.quadrant(i) by {}
}

/// `locate` finds a rectangle exactly when the closed domain covers the
/// coordinate, and what it finds lies inside the domain.
pub proof fn lemma_locate_within(t: Quadtree, x: int, y: int)
    requires
        t.wf(),
    ensures
        t.located(x, y) is Some <==> t.bounds.covers(x, y),
        t.located(x, y) is Some ==> t.located(x, y)->0.within(t.bounds),
    decreases t,
{
    match t.region {
        Region::Leaf { .. } => {},
        Region::Internal { tl, tr, bl, br } => {
            lemma_quadrants_tile(t.bounds);
            lemma_locate_within(*tl, x, y);
            lemma_locate_within(*tr, x, y);
            lemma_locate_within(*bl, x, y);
            lemma_locate_within(*br, x, y);
            assert(t.bounds.quadrant(0).within(t.bounds));
            assert(t.bounds.quadrant(1).within(t.bounds));
            assert(t.bounds.quadrant(2).within(t.bounds));
            assert(t.bounds.quadrant(3).within(t.bounds));
        },
    }
}

/// Growing the tree never enlarges what `locate` returns: the same query
/// finds a rectangle in the grown tree exactly when it did before, and that
/// rectangle lies inside the earlier one.
pub proof fn lemma_locate_shrinks(before: Quadtree, after: Quadtree, x: int, y: int)
    requires
        before.wf(),
        after.wf(),
        before.refines(after),
    ensures
        after.located(x, y) is Some <==> before.located(x, y) is Some,
        before.located(x, y) is Some ==> after.located(x, y)->0.within(before.located(x, y)->0),
    decreases before,
{
    lemma_locate_within(before, x, y);
    lemma_locate_within(after, x, y);
    match before.region {
        Region::Leaf { .. } => {},
        Region::Internal { tl, tr, bl, br } => {
            lemma_locate_shrinks(*tl, after.child(0), x, y);
            lemma_locate_shrinks(*tr, after.child(1), x, y);
            lemma_locate_shrinks(*bl, after.child(2), x, y);
            lemma_locate_shrinks(*br, after.child(3), x, y);
        },
    }
}

} // verus!
