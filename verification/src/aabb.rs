//! Axis-aligned bounding boxes and the bounds of a range of triangles.

use vstd::prelude::*;
use crate::geom::{Point, Triangle, COORD_LIMIT, coord_ok, tri_ok};

verus! {

/// An axis-aligned box.  The 32-byte GPU layout pads this with two unused
/// floats; padding is left to the binary layout adapter.
#[derive(Clone, Copy, PartialEq, Eq, Structural, Debug)]
pub struct Aabb {
    pub minx: i64,
    pub miny: i64,
    pub minz: i64,
    pub maxx: i64,
    pub maxy: i64,
    pub maxz: i64,
}

pub open spec fn aabb_contains_point(b: Aabb, p: Point) -> bool {
    &&& b.minx <= p.x <= b.maxx
    &&& b.miny <= p.y <= b.maxy
    &&& b.minz <= p.z <= b.maxz
}

pub open spec fn aabb_contains_tri(b: Aabb, t: Triangle) -> bool {
    &&& aabb_contains_point(b, t.v0)
    &&& aabb_contains_point(b, t.v1)
    &&& aabb_contains_point(b, t.v2)
}

pub open spec fn aabb_contains_aabb(outer: Aabb, inner: Aabb) -> bool {
    &&& outer.minx <= inner.minx
    &&& outer.miny <= inner.miny
    &&& outer.minz <= inner.minz
    &&& inner.maxx <= outer.maxx
    &&& inner.maxy <= outer.maxy
    &&& inner.maxz <= outer.maxz
}

pub open spec fn aabb_ok(b: Aabb) -> bool {
    &&& coord_ok(b.minx) && coord_ok(b.miny) && coord_ok(b.minz)
    &&& coord_ok(b.maxx) && coord_ok(b.maxy) && coord_ok(b.maxz)
}

/// The box a bounds computation starts from: an inverted box, seeded with
/// sentinel coordinates that any grown point immediately replaces.
pub open spec fn spec_empty_box() -> Aabb {
    Aabb {
        minx: COORD_LIMIT,
        miny: COORD_LIMIT,
        minz: COORD_LIMIT,
        maxx: (-COORD_LIMIT) as i64,
        maxy: (-COORD_LIMIT) as i64,
        maxz: (-COORD_LIMIT) as i64,
    }
}

pub open spec fn grow_point(b: Aabb, p: Point) -> Aabb {
    Aabb {
        minx: if p.x < b.minx { p.x } else { b.minx },
        miny: if p.y < b.miny { p.y } else { b.miny },
        minz: if p.z < b.minz { p.z } else { b.minz },
        maxx: if p.x > b.maxx { p.x } else { b.maxx },
        maxy: if p.y > b.maxy { p.y } else { b.maxy },
        maxz: if p.z > b.maxz { p.z } else { b.maxz },
    }
}

pub open spec fn grow_tri(b: Aabb, t: Triangle) -> Aabb {
    grow_point(grow_point(grow_point(b, t.v0), t.v1), t.v2)
}

/// The bounds of the triangles `tris[ids[first]] .. tris[ids[first+amount-1]]`,
/// folded left to right, exactly as the executable loop accumulates them.
pub open spec fn range_bounds(tris: Seq<Triangle>, ids: Seq<u32>, first: int, amount: nat) -> Aabb
    decreases amount,
{
    if amount == 0 {
        spec_empty_box()
    } else {
        grow_tri(
            range_bounds(tris, ids, first, (amount - 1) as nat),
            tris[ids[first + amount - 1] as int],
        )
    }
}

/// The bounds of a range of centroids, used only to place split candidates.
pub open spec fn range_cbounds(cents: Seq<Point>, ids: Seq<u32>, first: int, amount: nat) -> Aabb
    decreases amount,
{
    if amount == 0 {
        spec_empty_box()
    } else {
        grow_point(
            range_cbounds(cents, ids, first, (amount - 1) as nat),
            cents[ids[first + amount - 1] as int],
        )
    }
}

/// The full surface area of a box: twice the sum of the three face-pair areas.
pub open spec fn spec_area(b: Aabb) -> int {
    2 * ((b.maxx - b.minx) * (b.maxy - b.miny)
        + (b.maxx - b.minx) * (b.maxz - b.minz)
        + (b.maxy - b.miny) * (b.maxz - b.minz))
}

/// The bounds of a range contain every triangle of the range.
pub proof fn lemma_range_bounds_contains(tris: Seq<Triangle>, ids: Seq<u32>, first: int, amount: nat)
    ensures
        forall|j: int| first <= j < first + amount
            ==> aabb_contains_tri(range_bounds(tris, ids, first, amount), tris[#[trigger] ids[j] as int]),
    decreases amount,
{
    if amount > 0 {
        lemma_range_bounds_contains(tris, ids, first, (amount - 1) as nat);
    }
}

/// The bounds of a range are the tightest box around it: any box that contains
/// every triangle of a non-empty range of bounded triangles contains its bounds.
pub proof fn lemma_range_bounds_minimal(
    outer: Aabb,
    tris: Seq<Triangle>,
    ids: Seq<u32>,
    first: int,
    amount: nat,
)
    requires
        amount > 0,
        forall|j: int| first <= j < first + amount
            ==> tri_ok(tris[#[trigger] ids[j] as int])
                && aabb_contains_tri(outer, tris[ids[j] as int]),
    ensures
        aabb_contains_aabb(outer, range_bounds(tris, ids, first, amount)),
    decreases amount,
{
    let last = tris[ids[first + amount - 1] as int];
    assert(tri_ok(last) && aabb_contains_tri(outer, last));
    if amount == 1 {
        reveal_with_fuel(range_bounds, 2);
        assert(range_bounds(tris, ids, first, 1) == grow_tri(spec_empty_box(), last));
    } else {
        lemma_range_bounds_minimal(outer, tris, ids, first, (amount - 1) as nat);
    }
}

/// The bounds of a range of bounded triangles are bounded, and are a real
/// (non-inverted) box as soon as the range is non-empty.
pub proof fn lemma_range_bounds_ok(tris: Seq<Triangle>, ids: Seq<u32>, first: int, amount: nat)
    requires
        forall|j: int| first <= j < first + amount ==> tri_ok(tris[#[trigger] ids[j] as int]),
    ensures
        aabb_ok(range_bounds(tris, ids, first, amount)),
        amount > 0 ==> {
            let b = range_bounds(tris, ids, first, amount);
            b.minx <= b.maxx && b.miny <= b.maxy && b.minz <= b.maxz
        },
    decreases amount,
{
    if amount > 0 {
        lemma_range_bounds_ok(tris, ids, first, (amount - 1) as nat);
    }
}

/// The centroid-bounds analogue of `lemma_range_bounds_ok`.
pub proof fn lemma_range_cbounds_ok(cents: Seq<Point>, ids: Seq<u32>, first: int, amount: nat)
    requires
        forall|j: int| first <= j < first + amount
            ==> crate::geom::point_ok(cents[#[trigger] ids[j] as int]),
    ensures
        aabb_ok(range_cbounds(cents, ids, first, amount)),
        amount > 0 ==> {
            let b = range_cbounds(cents, ids, first, amount);
            b.minx <= b.maxx && b.miny <= b.maxy && b.minz <= b.maxz
        },
    decreases amount,
{
    if amount > 0 {
        lemma_range_cbounds_ok(cents, ids, first, (amount - 1) as nat);
    }
}

} // verus!
