//! Points and triangles over bounded fixed-point coordinates.

use vstd::prelude::*;

verus! {

/// Largest coordinate magnitude the library accepts.  The bound keeps every
/// intermediate product of the intersection primitives inside `i64`, and every
/// cross-multiplied rational comparison inside `i128`.
pub const COORD_LIMIT: i64 = 262144;

/// A coordinate the library can work with.
pub open spec fn coord_ok(v: i64) -> bool {
    -COORD_LIMIT <= v <= COORD_LIMIT
}

/// A position (or direction) in space.  The 16-byte GPU layout pads this
/// with a fourth component; padding is a serialization concern and is left
/// to the binary layout adapter.
#[derive(Clone, Copy, PartialEq, Eq, Structural, Debug)]
pub struct Point {
    pub x: i64,
    pub y: i64,
    pub z: i64,
}

pub open spec fn point_ok(p: Point) -> bool {
    coord_ok(p.x) && coord_ok(p.y) && coord_ok(p.z)
}

/// A triangle given by its three corner positions.
#[derive(Clone, Copy, PartialEq, Eq, Structural, Debug)]
pub struct Triangle {
    pub v0: Point,
    pub v1: Point,
    pub v2: Point,
}

pub open spec fn tri_ok(t: Triangle) -> bool {
    point_ok(t.v0) && point_ok(t.v1) && point_ok(t.v2)
}

pub open spec fn tris_ok(ts: Seq<Triangle>) -> bool {
    forall|i: int| 0 <= i < ts.len() ==> tri_ok(#[trigger] ts[i])
}

impl Point {
    pub fn new(x: i64, y: i64, z: i64) -> (p: Point)
        ensures
            p == (Point { x, y, z }),
    {
        Point { x, y, z }
    }

    /// Component-wise minimum.
    pub fn min(self, rhs: Point) -> (r: Point)
        ensures
            r == spec_point_min(self, rhs),
    {
        Point {
            x: if self.x < rhs.x { self.x } else { rhs.x },
            y: if self.y < rhs.y { self.y } else { rhs.y },
            z: if self.z < rhs.z { self.z } else { rhs.z },
        }
    }

    /// Component-wise maximum.
    pub fn max(self, rhs: Point) -> (r: Point)
        ensures
            r == spec_point_max(self, rhs),
    {
        Point {
            x: if self.x > rhs.x { self.x } else { rhs.x },
            y: if self.y > rhs.y { self.y } else { rhs.y },
            z: if self.z > rhs.z { self.z } else { rhs.z },
        }
    }

    /// Component-wise difference.
    pub fn sub(self, rhs: Point) -> (r: Point)
        requires
            -(4 * COORD_LIMIT) <= self.x - rhs.x <= 4 * COORD_LIMIT,
            -(4 * COORD_LIMIT) <= self.y - rhs.y <= 4 * COORD_LIMIT,
            -(4 * COORD_LIMIT) <= self.z - rhs.z <= 4 * COORD_LIMIT,
        ensures
            r.x == self.x - rhs.x,
            r.y == self.y - rhs.y,
            r.z == self.z - rhs.z,
    {
        Point { x: self.x - rhs.x, y: self.y - rhs.y, z: self.z - rhs.z }
    }

    /// The coordinate on the given axis (0 = x, 1 = y, 2 = z).
    pub fn component(&self, axis: usize) -> (r: i64)
        requires
            axis < 3,
        ensures
            r == spec_component(*self, axis as int),
    {
        if axis == 0 {
            self.x
        } else if axis == 1 {
            self.y
        } else {
            self.z
        }
    }
}

pub open spec fn spec_point_min(a: Point, b: Point) -> Point {
    Point {
        x: if a.x < b.x { a.x } else { b.x },
        y: if a.y < b.y { a.y } else { b.y },
        z: if a.z < b.z { a.z } else { b.z },
    }
}

pub open spec fn spec_point_max(a: Point, b: Point) -> Point {
    Point {
        x: if a.x > b.x { a.x } else { b.x },
        y: if a.y > b.y { a.y } else { b.y },
        z: if a.z > b.z { a.z } else { b.z },
    }
}

pub open spec fn spec_component(p: Point, axis: int) -> i64 {
    if axis == 0 {
        p.x
    } else if axis == 1 {
        p.y
    } else {
        p.z
    }
}

/// Bound on a factor of a dot product's left argument.
pub const DOT_BOUND_A: i64 = 2097152;

/// Bound on a factor of a dot product's right argument.
pub const DOT_BOUND_B: i64 = 1099511627776;

/// The dot product of two vectors.
pub open spec fn spec_dot(a: Point, b: Point) -> int {
    a.x * b.x + a.y * b.y + a.z * b.z
}

/// The cross product of two vectors, component by component.
pub open spec fn spec_cross_x(a: Point, b: Point) -> int {
    a.y * b.z - a.z * b.y
}

pub open spec fn spec_cross_y(a: Point, b: Point) -> int {
    a.z * b.x - a.x * b.z
}

pub open spec fn spec_cross_z(a: Point, b: Point) -> int {
    a.x * b.y - a.y * b.x
}

pub fn dot(a: Point, b: Point) -> (r: i64)
    requires
        -DOT_BOUND_A <= a.x <= DOT_BOUND_A,
        -DOT_BOUND_A <= a.y <= DOT_BOUND_A,
        -DOT_BOUND_A <= a.z <= DOT_BOUND_A,
        -DOT_BOUND_B <= b.x <= DOT_BOUND_B,
        -DOT_BOUND_B <= b.y <= DOT_BOUND_B,
        -DOT_BOUND_B <= b.z <= DOT_BOUND_B,
    ensures
        r == spec_dot(a, b),
{
    proof {
        lemma_mul_bound(a.x as int, b.x as int, DOT_BOUND_A as int, DOT_BOUND_B as int);
        lemma_mul_bound(a.y as int, b.y as int, DOT_BOUND_A as int, DOT_BOUND_B as int);
        lemma_mul_bound(a.z as int, b.z as int, DOT_BOUND_A as int, DOT_BOUND_B as int);
    }
    a.x * b.x + a.y * b.y + a.z * b.z
}

pub fn cross(a: Point, b: Point) -> (r: Point)
    requires
        -DOT_BOUND_A <= a.x <= DOT_BOUND_A,
        -DOT_BOUND_A <= a.y <= DOT_BOUND_A,
        -DOT_BOUND_A <= a.z <= DOT_BOUND_A,
        -DOT_BOUND_A <= b.x <= DOT_BOUND_A,
        -DOT_BOUND_A <= b.y <= DOT_BOUND_A,
        -DOT_BOUND_A <= b.z <= DOT_BOUND_A,
    ensures
        r.x == spec_cross_x(a, b),
        r.y == spec_cross_y(a, b),
        r.z == spec_cross_z(a, b),
{
    proof {
        lemma_mul_bound(a.y as int, b.z as int, DOT_BOUND_A as int, DOT_BOUND_A as int);
        lemma_mul_bound(a.z as int, b.y as int, DOT_BOUND_A as int, DOT_BOUND_A as int);
        lemma_mul_bound(a.z as int, b.x as int, DOT_BOUND_A as int, DOT_BOUND_A as int);
        lemma_mul_bound(a.x as int, b.z as int, DOT_BOUND_A as int, DOT_BOUND_A as int);
        lemma_mul_bound(a.x as int, b.y as int, DOT_BOUND_A as int, DOT_BOUND_A as int);
        lemma_mul_bound(a.y as int, b.x as int, DOT_BOUND_A as int, DOT_BOUND_A as int);
    }
    Point {
        x: a.y * b.z - a.z * b.y,
        y: a.z * b.x - a.x * b.z,
        z: a.x * b.y - a.y * b.x,
    }
}

/// `|a * b| <= bound_a * bound_b` whenever the factors are bounded.
pub proof fn lemma_mul_bound(a: int, b: int, ba: int, bb: int)
    by (nonlinear_arith)
    requires
        -ba <= a <= ba,
        -bb <= b <= bb,
        0 <= ba,
        0 <= bb,
    ensures
        -(ba * bb) <= a * b <= ba * bb,
{
}

/// Division by three, truncating toward zero as the executable `/` does
/// (spec-mode `/` rounds toward negative infinity instead).
pub open spec fn tdiv3(a: int) -> int {
    if a >= 0 {
        a / 3
    } else {
        -((-a) / 3)
    }
}

/// The centroid of a triangle: the component-wise average of its corners.
pub open spec fn spec_centroid(t: Triangle) -> Point {
    Point {
        x: tdiv3(t.v0.x + t.v1.x + t.v2.x) as i64,
        y: tdiv3(t.v0.y + t.v1.y + t.v2.y) as i64,
        z: tdiv3(t.v0.z + t.v1.z + t.v2.z) as i64,
    }
}

/// A bounded triangle's centroid is bounded as well.
pub proof fn lemma_centroid_ok(t: Triangle)
    requires
        tri_ok(t),
    ensures
        point_ok(spec_centroid(t)),
{
}

pub fn centroid(t: &Triangle) -> (c: Point)
    requires
        tri_ok(*t),
    ensures
        c == spec_centroid(*t),
        point_ok(c),
{
    Point {
        x: (t.v0.x + t.v1.x + t.v2.x) / 3,
        y: (t.v0.y + t.v1.y + t.v2.y) / 3,
        z: (t.v0.z + t.v1.z + t.v2.z) / 3,
    }
}

} // verus!
