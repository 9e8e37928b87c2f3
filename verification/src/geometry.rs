//! Points on the integer grid, polygons over them, and circles.
//!
//! Everything here is exact integer geometry; measures that need real
//! arithmetic (distances, circumferences) are left to the callers that
//! own the floating-point world.

use vstd::prelude::*;

verus! {

/// A point on the integer grid.
#[derive(Clone, Copy, PartialEq, Eq, Structural, Debug)]
pub struct Point {
    pub x: i32,
    pub y: i32,
}

impl Point {
    pub fn new(x: i32, y: i32) -> (p: Point)
        ensures
            p.x == x,
            p.y == y,
    {
        Point { x, y }
    }

    /// Componentwise vector addition.
    pub fn add(self, other: Point) -> (r: Point)
        requires
            i32::MIN <= self.x + other.x <= i32::MAX,
            i32::MIN <= self.y + other.y <= i32::MAX,
        ensures
            r.x == self.x + other.x,
            r.y == self.y + other.y,
    {
        Point { x: self.x + other.x, y: self.y + other.y }
    }
}

/// `s[i]` is the leftmost vertex of `s`, and the first one among those that
/// tie for that distinction.
pub open spec fn is_first_leftmost(s: Seq<Point>, i: int) -> bool {
    &&& 0 <= i < s.len()
    &&& forall|j: int| 0 <= j < s.len() ==> s[i].x <= s[j].x
    &&& forall|j: int| 0 <= j < i ==> s[i].x < s[j].x
}

/// A polygon, as the sequence of its vertices in insertion order.
pub struct Polygon {
    pub points: Vec<Point>,
}

impl Polygon {
    pub fn new() -> (p: Polygon)
        ensures
            p.points@.len() == 0,
    {
        Polygon { points: Vec::new() }
    }

    pub fn add_point(&mut self, next: Point)
        ensures
            final(self).points@ == old(self).points@.push(next),
    {
        self.points.push(next)
    }

    /// The vertices, in insertion order.
    pub fn iter(&self) -> (r: Vec<Point>)
        ensures
            r@ == self.points@,
    {
        let mut out: Vec<Point> = Vec::new();
        let mut i: usize = 0;
        while i < self.points.len()
            invariant
                i <= self.points@.len(),
                out@ == self.points@.take(i as int),
            decreases self.points@.len() - i,
        {
            out.push(self.points[i]);
            i += 1;
        }
        proof {
            assert(out@ =~= self.points@);
        }
        out
    }

    /// The vertex with the smallest `x`; among equals, the one added first.
    pub fn left_most_point(&self) -> (r: Option<Point>)
        ensures
            (r is None) <==> self.points@.len() == 0,
            r matches Some(p) ==> exists|i: int|
                is_first_leftmost(self.points@, i) && p == self.points@[i],
    {
        if self.points.len() == 0 {
            return None;
        }
        let mut best: usize = 0;
        let mut k: usize = 1;
        while k < self.points.len()
            invariant
                0 < self.points@.len(),
                best < k <= self.points@.len(),
                forall|j: int| 0 <= j < k ==> self.points@[best as int].x <= self.points@[j].x,
                forall|j: int| 0 <= j < best ==> self.points@[best as int].x < self.points@[j].x,
            decreases self.points@.len() - k,
        {
            if self.points[k].x < self.points[best].x {
                best = k;
            }
            k += 1;
        }
        proof {
            assert(is_first_leftmost(self.points@, best as int));
        }
        Some(self.points[best])
    }
}

/// A circle around a grid point, with an integer radius.
pub struct Circle {
    pub centre: Point,
    pub radius: u32,
}

impl Circle {
    pub fn new(centre: Point, radius: u32) -> (c: Circle)
        ensures
            c.centre == centre,
            c.radius == radius,
    {
        Circle { centre, radius }
    }
}

/// Either kind of shape the library knows about.
pub enum Shape {
    Polygon(Polygon),
    Circle(Circle),
}

impl From<Polygon> for Shape {
    fn from(poly: Polygon) -> (s: Shape) {
        Shape::Polygon(poly)
    }
}

impl vstd::std_specs::convert::FromSpecImpl<Polygon> for Shape {
    open spec fn obeys_from_spec() -> bool {
        true
    }

    open spec fn from_spec(poly: Polygon) -> Shape {
        Shape::Polygon(poly)
    }
}

impl From<Circle> for Shape {
    fn from(circ: Circle) -> (s: Shape) {
        Shape::Circle(circ)
    }
}

impl vstd::std_specs::convert::FromSpecImpl<Circle> for Shape {
    open spec fn obeys_from_spec() -> bool {
        true
    }

    open spec fn from_spec(circ: Circle) -> Shape {
        Shape::Circle(circ)
    }
}

} // verus!
