//! Points and boxes in space, on a lattice of integer coordinates.

use vstd::prelude::*;

verus! {

/// A point of the lattice.
#[derive(Clone, Copy, Debug, PartialEq, Eq, Structural)]
pub struct Point3 {
    pub x: i64,
    pub y: i64,
    pub z: i64,
}

/// A box, from its lowest corner up to but without its highest corner.
#[derive(Clone, Copy, Debug, PartialEq, Eq, Structural)]
pub struct Span {
    pub start: Point3,
    pub end: Point3,
}

/// The middle between two coordinates.
pub open spec fn middle(start: i64, end: i64) -> int {
    start + (end - start) / 2
}

/// The coordinate nearest to `c` from `start` up to but without `end`.
pub open spec fn nearest(start: i64, end: i64, c: i64) -> i64 {
    if c < start {
        start
    } else if c >= end {
        (end - 1) as i64
    } else {
        c
    }
}

impl Span {
    /// Whether the box holds a point.
    pub open spec fn nonempty(self) -> bool {
        &&& self.start.x < self.end.x
        &&& self.start.y < self.end.y
        &&& self.start.z < self.end.z
    }

    /// Whether the box holds a point, and its sides can be measured.
    pub open spec fn wf(self) -> bool {
        &&& self.nonempty()
        &&& self.end.x - self.start.x <= i64::MAX
        &&& self.end.y - self.start.y <= i64::MAX
        &&& self.end.z - self.start.z <= i64::MAX
    }

    /// Whether the box is large enough to be cut in two along each axis.
    pub open spec fn divisible(self) -> bool {
        &&& self.wf()
        &&& self.end.x - self.start.x >= 2
        &&& self.end.y - self.start.y >= 2
        &&& self.end.z - self.start.z >= 2
    }

    /// Whether the point lies in the box.
    pub open spec fn holds(self, p: Point3) -> bool {
        &&& self.start.x <= p.x < self.end.x
        &&& self.start.y <= p.y < self.end.y
        &&& self.start.z <= p.z < self.end.z
    }

    /// Whether the whole of `other` lies in the box.
    pub open spec fn covers(self, other: Span) -> bool {
        &&& self.start.x <= other.start.x && other.end.x <= self.end.x
        &&& self.start.y <= other.start.y && other.end.y <= self.end.y
        &&& self.start.z <= other.start.z && other.end.z <= self.end.z
    }

    /// The point in the middle of the box.
    pub open spec fn midpoint(self) -> Point3 {
        Point3 {
            x: middle(self.start.x, self.end.x) as i64,
            y: middle(self.start.y, self.end.y) as i64,
            z: middle(self.start.z, self.end.z) as i64,
        }
    }

    /// The point of the box that is nearest to `p`.
    pub open spec fn nearest_to(self, p: Point3) -> Point3 {
        Point3 {
            x: nearest(self.start.x, self.end.x, p.x),
            y: nearest(self.start.y, self.end.y, p.y),
            z: nearest(self.start.z, self.end.z, p.z),
        }
    }

    /// One of the eight boxes that a cut through the middle leaves. Octant
    /// `4 * x + 2 * y + z` is the upper one along each axis whose letter is one.
    pub open spec fn octant(self, k: int) -> Span {
        let m = self.midpoint();
        Span {
            start: Point3 {
                x: if k / 4 % 2 == 0 { self.start.x } else { m.x },
                y: if k / 2 % 2 == 0 { self.start.y } else { m.y },
                z: if k % 2 == 0 { self.start.z } else { m.z },
            },
            end: Point3 {
                x: if k / 4 % 2 == 0 { m.x } else { self.end.x },
                y: if k / 2 % 2 == 0 { m.y } else { self.end.y },
                z: if k % 2 == 0 { m.z } else { self.end.z },
            },
        }
    }

    /// The octant on whose side of the middle the point lies.
    pub open spec fn octant_toward(self, p: Point3) -> int {
        let m = self.midpoint();
        (if p.x >= m.x { 4int } else { 0 }) + (if p.y >= m.y { 2int } else { 0 }) + (if p.z >= m.z {
            1int
        } else {
            0
        })
    }

    /// Gives the point in the middle of the box.
    pub fn center(&self) -> (m: Point3)
        requires
            self.wf(),
        ensures
            m == self.midpoint(),
            self.holds(m),
            self.start.x <= m.x && 0 <= (self.end.x - m.x) - (m.x - self.start.x) <= 1,
            self.start.y <= m.y && 0 <= (self.end.y - m.y) - (m.y - self.start.y) <= 1,
            self.start.z <= m.z && 0 <= (self.end.z - m.z) - (m.z - self.start.z) <= 1,
    {
        Point3 {
            x: self.start.x + (self.end.x - self.start.x) / 2,
            y: self.start.y + (self.end.y - self.start.y) / 2,
            z: self.start.z + (self.end.z - self.start.z) / 2,
        }
    }

    /// Decides whether the point lies in the box.
    pub fn contains(&self, p: Point3) -> (inside: bool)
        ensures
            inside == self.holds(p),
            inside <==> self.start.x <= p.x < self.end.x && self.start.y <= p.y < self.end.y
                && self.start.z <= p.z < self.end.z,
    {
        self.start.x <= p.x && p.x < self.end.x && self.start.y <= p.y && p.y < self.end.y
            && self.start.z <= p.z && p.z < self.end.z
    }

    /// Decides whether the box is large enough to be cut in two along each axis.
    pub fn is_divisible(&self) -> (large: bool)
        requires
            self.wf(),
        ensures
            large == self.divisible(),
            large <==> self.end.x - self.start.x >= 2 && self.end.y - self.start.y >= 2
                && self.end.z - self.start.z >= 2,
    {
        self.end.x - self.start.x >= 2 && self.end.y - self.start.y >= 2 && self.end.z
            - self.start.z >= 2
    }

    /// Gives one of the eight boxes that a cut through the middle leaves.
    pub fn get_octant(&self, k: usize) -> (octant: Span)
        requires
            self.wf(),
            k < 8,
        ensures
            octant == self.octant(k as int),
    {
        let m = self.center();
        Span {
            start: Point3 {
                x: if k / 4 % 2 == 0 { self.start.x } else { m.x },
                y: if k / 2 % 2 == 0 { self.start.y } else { m.y },
                z: if k % 2 == 0 { self.start.z } else { m.z },
            },
            end: Point3 {
                x: if k / 4 % 2 == 0 { m.x } else { self.end.x },
                y: if k / 2 % 2 == 0 { m.y } else { self.end.y },
                z: if k % 2 == 0 { m.z } else { self.end.z },
            },
        }
    }

    /// Finds the octant on whose side of the middle the point lies.
    pub fn find_octant(&self, p: Point3) -> (k: usize)
        requires
            self.wf(),
        ensures
            k == self.octant_toward(p),
            k < 8,
    {
        let m = self.center();
        let x: usize = if p.x >= m.x { 4 } else { 0 };
        let y: usize = if p.y >= m.y { 2 } else { 0 };
        let z: usize = if p.z >= m.z { 1 } else { 0 };
        x + y + z
    }
}

/// The octants of a divisible box are boxes within it.
pub proof fn lemma_octant(span: Span, k: int)
    requires
        span.divisible(),
        0 <= k < 8,
    ensures
        span.octant(k).wf(),
        span.covers(span.octant(k)),
{
}

/// Of the octants of a divisible box, exactly the one toward a point is the one
/// whose nearest point is the nearest point of the whole box. A point of the box
/// lies in that octant and in no other.
pub proof fn lemma_octant_toward(span: Span, p: Point3)
    requires
        span.divisible(),
    ensures
        0 <= span.octant_toward(p) < 8,
        span.octant(span.octant_toward(p)).nearest_to(p) == span.nearest_to(p),
        forall|k: int|
            0 <= k < 8 ==> (#[trigger] span.octant(k).holds(span.nearest_to(p)) <==> k
                == span.octant_toward(p)),
{
    assert forall|k: int| 0 <= k < 8 implies (#[trigger] span.octant(k).holds(span.nearest_to(p))
        <==> k == span.octant_toward(p)) by {
        assert(k == 0 || k == 1 || k == 2 || k == 3 || k == 4 || k == 5 || k == 6 || k == 7);
    }
}

/// The nearest point of a box lies in the box, and is the point itself if that
/// lies in the box.
pub proof fn lemma_nearest(span: Span, p: Point3)
    requires
        span.wf(),
    ensures
        span.holds(span.nearest_to(p)),
        span.holds(p) ==> span.nearest_to(p) == p,
{
}

/// The middle of a box lies as far from its start as from its end, or one nearer to
/// the start.
pub proof fn lemma_midpoint(span: Span)
    requires
        span.start.x < span.end.x && span.end.x - span.start.x <= i64::MAX,
        span.start.y < span.end.y && span.end.y - span.start.y <= i64::MAX,
        span.start.z < span.end.z && span.end.z - span.start.z <= i64::MAX,
    ensures
        ({
            let m = span.midpoint();
            &&& span.start.x <= m.x && 0 <= (span.end.x - m.x) - (m.x - span.start.x) <= 1
            &&& span.start.y <= m.y && 0 <= (span.end.y - m.y) - (m.y - span.start.y) <= 1
            &&& span.start.z <= m.z && 0 <= (span.end.z - m.z) - (m.z - span.start.z) <= 1
        }),
{
}

/// A point lies in an octant of a box exactly if it lies in the box, and on the side of
/// the middle that the octant has along each axis: above it along x for the last four
/// octants, along y for the last two of each four, along z for the last of each two.
pub proof fn lemma_octant_sides(span: Span, k: int, p: Point3)
    requires
        span.start.x < span.end.x && span.end.x - span.start.x <= i64::MAX,
        span.start.y < span.end.y && span.end.y - span.start.y <= i64::MAX,
        span.start.z < span.end.z && span.end.z - span.start.z <= i64::MAX,
        0 <= k < 8,
    ensures
        ({
            let o = span.octant(k);
            let m = span.midpoint();
            let inside = o.start.x <= p.x < o.end.x && o.start.y <= p.y < o.end.y && o.start.z
                <= p.z < o.end.z;
            inside <==> {
                &&& span.start.x <= p.x < span.end.x
                &&& span.start.y <= p.y < span.end.y
                &&& span.start.z <= p.z < span.end.z
                &&& p.x >= m.x <==> (k == 4 || k == 5 || k == 6 || k == 7)
                &&& p.y >= m.y <==> (k == 2 || k == 3 || k == 6 || k == 7)
                &&& p.z >= m.z <==> (k == 1 || k == 3 || k == 5 || k == 7)
            }
        }),
{
    assert(k == 0 || k == 1 || k == 2 || k == 3 || k == 4 || k == 5 || k == 6 || k == 7);
}

} // verus!
