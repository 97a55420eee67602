//! Exact 2-D geometry: vectors and axis-aligned bounding boxes.
//!
//! Coordinates are `i64` values in whatever unit the caller picks (a
//! fixed-point scale of the world coordinates, say); every operation is
//! specified exactly over mathematical integers.

use vstd::prelude::*;

verus! {

/// A point or displacement in the plane, with exact integer coordinates.
#[derive(Clone, Copy, Debug, PartialEq, Eq, Structural)]
pub struct Vec2 {
    pub x: i64,
    pub y: i64,
}

impl View for Vec2 {
    type V = (int, int);

    open spec fn view(&self) -> (int, int) {
        (self.x as int, self.y as int)
    }
}

impl Vec2 {
    /// Componentwise sum of two vectors.
    pub fn add(&self, other: Vec2) -> (r: Vec2)
        requires
            i64::MIN <= self.x + other.x <= i64::MAX,
            i64::MIN <= self.y + other.y <= i64::MAX,
        ensures
            r@ == (self@.0 + other@.0, self@.1 + other@.1),
    {
        Vec2 { x: self.x + other.x, y: self.y + other.y }
    }
}

/// The mathematical model of a bounding box: a pair of corners.
pub ghost struct Box2 {
    pub lo: (int, int),
    pub hi: (int, int),
}

/// The box every update absorbs: corners at the integer extremes, so the
/// first point recorded becomes both corners, as an infinite sentinel
/// would under floating-point min/max.
pub open spec fn empty_box() -> Box2 {
    Box2 { lo: (i64::MAX as int, i64::MAX as int), hi: (i64::MIN as int, i64::MIN as int) }
}

/// The box widened just enough to take in the point `p`.
pub open spec fn bb_add(b: Box2, p: (int, int)) -> Box2 {
    Box2 {
        lo: (vstd::math::min(b.lo.0, p.0), vstd::math::min(b.lo.1, p.1)),
        hi: (vstd::math::max(b.hi.0, p.0), vstd::math::max(b.hi.1, p.1)),
    }
}

/// The box widened by every point of `pts`, in order.
pub open spec fn bb_fold(b: Box2, pts: Seq<(int, int)>) -> Box2
    decreases pts.len(),
{
    if pts.len() == 0 {
        b
    } else {
        bb_fold(bb_add(b, pts[0]), pts.skip(1))
    }
}

/// `p` lies within `b`, componentwise.
pub open spec fn bb_contains(b: Box2, p: (int, int)) -> bool {
    b.lo.0 <= p.0 <= b.hi.0 && b.lo.1 <= p.1 <= b.hi.1
}

/// `outer` takes in everything `inner` does.
pub open spec fn bb_covers(outer: Box2, inner: Box2) -> bool {
    outer.lo.0 <= inner.lo.0 && outer.lo.1 <= inner.lo.1 && inner.hi.0 <= outer.hi.0
        && inner.hi.1 <= outer.hi.1
}

/// Widening a box by a sequence of points only ever widens it.
pub proof fn lemma_bb_fold_covers(b: Box2, pts: Seq<(int, int)>)
    ensures
        bb_covers(bb_fold(b, pts), b),
    decreases pts.len(),
{
    if pts.len() > 0 {
        lemma_bb_fold_covers(bb_add(b, pts[0]), pts.skip(1));
    }
}

/// A box widened by a sequence of points contains each of them.
pub proof fn lemma_bb_fold_contains(b: Box2, pts: Seq<(int, int)>)
    ensures
        forall|k: int| 0 <= k < pts.len() ==> bb_contains(bb_fold(b, pts), pts[k]),
    decreases pts.len(),
{
    if pts.len() > 0 {
        let b1 = bb_add(b, pts[0]);
        lemma_bb_fold_covers(b1, pts.skip(1));
        lemma_bb_fold_contains(b1, pts.skip(1));
        assert forall|k: int| 0 <= k < pts.len() implies bb_contains(bb_fold(b, pts), pts[k]) by {
            if k == 0 {
                lemma_covers_contains(bb_fold(b1, pts.skip(1)), b1, pts[0]);
            } else {
                assert(pts.skip(1)[k - 1] == pts[k]);
            }
        }
    }
}

/// Once at least one point has been recorded, the corners are ordered:
/// the lower corner is componentwise at most the upper one.  Before the
/// first point the box may still be the reversed sentinel.
pub proof fn lemma_bb_fold_ordered(b: Box2, pts: Seq<(int, int)>)
    requires
        pts.len() >= 1,
    ensures
        bb_fold(b, pts).lo.0 <= bb_fold(b, pts).hi.0,
        bb_fold(b, pts).lo.1 <= bb_fold(b, pts).hi.1,
{
    lemma_bb_fold_contains(b, pts);
    assert(bb_contains(bb_fold(b, pts), pts[0]));
}

/// Folding a concatenation folds one part after the other.
pub proof fn lemma_bb_fold_append(b: Box2, p: Seq<(int, int)>, q: Seq<(int, int)>)
    ensures
        bb_fold(b, p + q) == bb_fold(bb_fold(b, p), q),
    decreases p.len(),
{
    if p.len() == 0 {
        assert(p + q =~= q);
    } else {
        assert(p.skip(1) + q =~= (p + q).skip(1));
        lemma_bb_fold_append(bb_add(b, p[0]), p.skip(1), q);
    }
}

/// Folding two points is two single widenings.
pub proof fn lemma_bb_fold_pair(b: Box2, p: (int, int), n: (int, int))
    ensures
        bb_fold(b, seq![p, n]) == bb_add(bb_add(b, p), n),
{
    reveal_with_fuel(bb_fold, 4);
    assert(seq![p, n].skip(1) =~= seq![n]);
    assert(seq![n].skip(1) =~= Seq::<(int, int)>::empty());
}

/// A point within a box is within every box that covers it.
pub proof fn lemma_covers_contains(outer: Box2, inner: Box2, p: (int, int))
    requires
        bb_covers(outer, inner),
        bb_contains(inner, p),
    ensures
        bb_contains(outer, p),
{
}

/// The minimal axis-aligned box around a set of recorded points.
///
/// A fresh box sits at the empty sentinel ([`empty_box`]); the first
/// [`BoundingBox::update`] call makes both corners that point, and later
/// calls only widen the corners.  `center` and `size` are meaningful only
/// once at least one point has been recorded.
#[derive(Clone, Copy, Debug, PartialEq, Eq, Structural)]
pub struct BoundingBox {
    pub min: Vec2,
    pub max: Vec2,
}

impl View for BoundingBox {
    type V = Box2;

    open spec fn view(&self) -> Box2 {
        Box2 { lo: self.min@, hi: self.max@ }
    }
}

impl BoundingBox {
    /// A box in the empty sentinel state.
    pub fn new() -> (b: BoundingBox)
        ensures
            b@ == empty_box(),
    {
        BoundingBox {
            min: Vec2 { x: i64::MAX, y: i64::MAX },
            max: Vec2 { x: i64::MIN, y: i64::MIN },
        }
    }

    /// Widen the box to take in `point`.
    pub fn update(&mut self, point: Vec2)
        ensures
            final(self)@ == bb_add(old(self)@, point@),
    {
        if point.x < self.min.x {
            self.min.x = point.x;
        }
        if point.y < self.min.y {
            self.min.y = point.y;
        }
        if point.x > self.max.x {
            self.max.x = point.x;
        }
        if point.y > self.max.y {
            self.max.y = point.y;
        }
    }

    /// The midpoint of the two corners, rounded toward the lower corner.
    pub fn center(&self) -> (c: Vec2)
        requires
            self@.lo.0 <= self@.hi.0,
            self@.lo.1 <= self@.hi.1,
            self@.hi.0 - self@.lo.0 <= i64::MAX,
            self@.hi.1 - self@.lo.1 <= i64::MAX,
        ensures
            c@ == (self@.lo.0 + (self@.hi.0 - self@.lo.0) / 2, self@.lo.1 + (self@.hi.1
                - self@.lo.1) / 2),
    {
        // The extent is nonnegative here, so halving it through u64
        // keeps the exact floor the contract states.
        let dx = ((self.max.x - self.min.x) as u64 / 2) as i64;
        let dy = ((self.max.y - self.min.y) as u64 / 2) as i64;
        Vec2 { x: self.min.x + dx, y: self.min.y + dy }
    }

    /// The elementwise absolute extent of the box.
    pub fn size(&self) -> (s: Vec2)
        requires
            self@.lo.0 <= self@.hi.0,
            self@.lo.1 <= self@.hi.1,
            self@.hi.0 - self@.lo.0 <= i64::MAX,
            self@.hi.1 - self@.lo.1 <= i64::MAX,
        ensures
            s@ == (self@.hi.0 - self@.lo.0, self@.hi.1 - self@.lo.1),
    {
        Vec2 { x: self.max.x - self.min.x, y: self.max.y - self.min.y }
    }
}

} // verus!
