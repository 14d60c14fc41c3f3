//! Rays, exact rational hit distances, and the two intersection primitives:
//! the ray/triangle test and the ray/box slab test.
//!
//! A hit distance is kept as a fraction `num / den` with `den >= 0`; the pair
//! `(1, 0)` stands for "no hit yet" (positive infinity).  Fractions are
//! compared by cross-multiplication, which stays exact where a
//! floating-point formulation (with a reciprocal direction) would round.

use vstd::prelude::*;
use crate::geom::{Point, Triangle, COORD_LIMIT, point_ok, tri_ok, dot, cross, lemma_mul_bound};
use crate::aabb::{Aabb, aabb_ok};

verus! {

/// The primitive id a ray starts with: no triangle.
pub const PRIM_NONE: u32 = 4294967295;

/// `a/b < c/d` for fractions with non-negative denominators, where `(1, 0)`
/// means positive infinity.
pub open spec fn rat_lt(an: int, ad: int, bn: int, bd: int) -> bool {
    an * bd < bn * ad
}

pub open spec fn rat_le(an: int, ad: int, bn: int, bd: int) -> bool {
    !rat_lt(bn, bd, an, ad)
}

/// A well-formed hit distance: non-negative denominator, and the zero
/// denominator is reserved for the infinity sentinel `(1, 0)`.
pub open spec fn wf_rat(n: int, d: int) -> bool {
    d >= 0 && (d == 0 ==> n == 1)
}

/// `<=` on well-formed fractions is transitive.
pub proof fn lemma_rat_le_trans(
    an: int, ad: int, bn: int, bd: int, cn: int, cd: int,
)
    by (nonlinear_arith)
    requires
        wf_rat(an, ad),
        wf_rat(bn, bd),
        wf_rat(cn, cd),
        rat_le(an, ad, bn, bd),
        rat_le(bn, bd, cn, cd),
    ensures
        rat_le(an, ad, cn, cd),
{
}

/// `<` on well-formed fractions is transitive.
pub proof fn lemma_rat_lt_trans(
    an: int, ad: int, bn: int, bd: int, cn: int, cd: int,
)
    by (nonlinear_arith)
    requires
        wf_rat(an, ad),
        wf_rat(bn, bd),
        wf_rat(cn, cd),
        rat_lt(an, ad, bn, bd),
        rat_lt(bn, bd, cn, cd),
    ensures
        rat_lt(an, ad, cn, cd),
{
}

/// `<=` then `<` on well-formed fractions gives `<`.
pub proof fn lemma_rat_le_lt_trans(
    an: int, ad: int, bn: int, bd: int, cn: int, cd: int,
)
    by (nonlinear_arith)
    requires
        wf_rat(an, ad),
        wf_rat(bn, bd),
        wf_rat(cn, cd),
        rat_le(an, ad, bn, bd),
        rat_lt(bn, bd, cn, cd),
    ensures
        rat_lt(an, ad, cn, cd),
{
}

/// `<` then `<=` on well-formed fractions gives `<`.
pub proof fn lemma_rat_lt_le_trans(
    an: int, ad: int, bn: int, bd: int, cn: int, cd: int,
)
    by (nonlinear_arith)
    requires
        wf_rat(an, ad),
        wf_rat(bn, bd),
        wf_rat(cn, cd),
        rat_lt(an, ad, bn, bd),
        rat_le(bn, bd, cn, cd),
    ensures
        rat_lt(an, ad, cn, cd),
{
}

/// A product of two `i64` values always fits in `i128`.
pub proof fn lemma_i64_mul_fits_i128(a: int, b: int)
    by (nonlinear_arith)
    requires
        -0x8000_0000_0000_0000 <= a <= 0x7fff_ffff_ffff_ffff,
        -0x8000_0000_0000_0000 <= b <= 0x7fff_ffff_ffff_ffff,
    ensures
        -0x4000_0000_0000_0000_0000_0000_0000_0000 <= a * b
            <= 0x4000_0000_0000_0000_0000_0000_0000_0000,
{
}

/// Exact comparison of two hit distances by cross-multiplication.
pub fn rat_lt_exec(an: i64, ad: i64, bn: i64, bd: i64) -> (r: bool)
    ensures
        r == rat_lt(an as int, ad as int, bn as int, bd as int),
{
    proof {
        lemma_i64_mul_fits_i128(an as int, bd as int);
        lemma_i64_mul_fits_i128(bn as int, ad as int);
    }
    (an as i128) * (bd as i128) < (bn as i128) * (ad as i128)
}

/// A ray with its running nearest-hit state.  The hit distance `t` is the
/// fraction `t_num / t_den`; a precomputed reciprocal direction is a
/// floating-point shortcut the exact slab test does not need.
#[derive(Clone, Copy, PartialEq, Eq, Structural, Debug)]
pub struct Ray {
    pub o: Point,
    pub d: Point,
    pub t_num: i64,
    pub t_den: i64,
    pub prim: u32,
}

impl Ray {
    pub open spec fn wf(self) -> bool {
        &&& point_ok(self.o)
        &&& point_ok(self.d)
        &&& !(self.d.x == 0 && self.d.y == 0 && self.d.z == 0)
        &&& wf_rat(self.t_num as int, self.t_den as int)
    }

    /// A fresh ray: best hit at infinity, no winning primitive.
    pub fn new(o: Point, d: Point) -> (r: Ray)
        requires
            point_ok(o),
            point_ok(d),
            !(d.x == 0 && d.y == 0 && d.z == 0),
        ensures
            r == (Ray { o, d, t_num: 1, t_den: 0, prim: PRIM_NONE }),
            r.wf(),
    {
        Ray { o, d, t_num: 1, t_den: 0, prim: PRIM_NONE }
    }

    /// True once some triangle has been hit: the sentinel denominator is gone.
    pub fn has_hit(&self) -> (r: bool)
        ensures
            r == (self.t_den != 0),
    {
        self.t_den != 0
    }
}

// --- The Moeller-Trumbore ray/triangle test, in exact arithmetic. ---

/// An integer vector for specification arithmetic.
pub ghost struct IVec {
    pub x: int,
    pub y: int,
    pub z: int,
}

pub open spec fn iv(p: Point) -> IVec {
    IVec { x: p.x as int, y: p.y as int, z: p.z as int }
}

pub open spec fn ivsub(a: IVec, b: IVec) -> IVec {
    IVec { x: a.x - b.x, y: a.y - b.y, z: a.z - b.z }
}

pub open spec fn ivcross(a: IVec, b: IVec) -> IVec {
    IVec { x: a.y * b.z - a.z * b.y, y: a.z * b.x - a.x * b.z, z: a.x * b.y - a.y * b.x }
}

pub open spec fn ivdot(a: IVec, b: IVec) -> int {
    a.x * b.x + a.y * b.y + a.z * b.z
}

/// `cross(d, v2 - v0)`: the vector whose dot products give the determinant
/// and the `u` barycentric numerator.
pub open spec fn spec_uvec(t: Triangle, d: Point) -> IVec {
    ivcross(iv(d), ivsub(iv(t.v2), iv(t.v0)))
}

/// The Moeller-Trumbore determinant; positive for front-facing triangles
/// (the test culls backfaces).
pub open spec fn spec_det(t: Triangle, d: Point) -> int {
    ivdot(ivsub(iv(t.v1), iv(t.v0)), spec_uvec(t, d))
}

pub open spec fn spec_u_num(t: Triangle, o: Point, d: Point) -> int {
    ivdot(ivsub(iv(o), iv(t.v0)), spec_uvec(t, d))
}

pub open spec fn spec_vvec(t: Triangle, o: Point) -> IVec {
    ivcross(ivsub(iv(o), iv(t.v0)), ivsub(iv(t.v1), iv(t.v0)))
}

pub open spec fn spec_v_num(t: Triangle, o: Point, d: Point) -> int {
    ivdot(iv(d), spec_vvec(t, o))
}

/// Numerator of the hit distance; the denominator is the determinant.
pub open spec fn spec_t_num(t: Triangle, o: Point, d: Point) -> int {
    ivdot(ivsub(iv(t.v2), iv(t.v0)), spec_vvec(t, o))
}

/// The ray hits the triangle: front-facing, barycentrics inside the
/// triangle (`0 <= u`, `0 <= v`, `u + v <= 1`), strictly positive distance.
pub open spec fn spec_hits(t: Triangle, o: Point, d: Point) -> bool {
    let det = spec_det(t, d);
    let u = spec_u_num(t, o, d);
    let v = spec_v_num(t, o, d);
    &&& det > 0
    &&& 0 <= u <= det
    &&& 0 <= v
    &&& u + v <= det
    &&& spec_t_num(t, o, d) > 0
}

/// The ray hits the triangle nearer than the current best distance, so the
/// hit is committed.
pub open spec fn spec_commits(t: Triangle, o: Point, d: Point, tn: int, td: int) -> bool {
    spec_hits(t, o, d) && rat_lt(spec_t_num(t, o, d), spec_det(t, d), tn, td)
}

/// Test one triangle against the ray and commit the hit if it is real and
/// strictly nearer than the ray's current best.
pub fn intersect_triangle(tri: &Triangle, prim: u32, ray: &mut Ray)
    requires
        tri_ok(*tri),
        old(ray).wf(),
    ensures
        final(ray).o == old(ray).o,
        final(ray).d == old(ray).d,
        final(ray).wf(),
        if spec_commits(*tri, old(ray).o, old(ray).d, old(ray).t_num as int, old(ray).t_den as int) {
            &&& final(ray).t_num == spec_t_num(*tri, old(ray).o, old(ray).d)
            &&& final(ray).t_den == spec_det(*tri, old(ray).d)
            &&& final(ray).prim == prim
        } else {
            &&& final(ray).t_num == old(ray).t_num
            &&& final(ray).t_den == old(ray).t_den
            &&& final(ray).prim == old(ray).prim
        },
{
    let a = tri.v0;
    let a_to_b = tri.v1.sub(a);
    let a_to_c = tri.v2.sub(a);

    let u_vec = cross(ray.d, a_to_c);
    proof {
        lemma_mul_bound(ray.d.y as int, a_to_c.z as int, COORD_LIMIT as int, 2 * COORD_LIMIT);
        lemma_mul_bound(ray.d.z as int, a_to_c.y as int, COORD_LIMIT as int, 2 * COORD_LIMIT);
        lemma_mul_bound(ray.d.z as int, a_to_c.x as int, COORD_LIMIT as int, 2 * COORD_LIMIT);
        lemma_mul_bound(ray.d.x as int, a_to_c.z as int, COORD_LIMIT as int, 2 * COORD_LIMIT);
        lemma_mul_bound(ray.d.x as int, a_to_c.y as int, COORD_LIMIT as int, 2 * COORD_LIMIT);
        lemma_mul_bound(ray.d.y as int, a_to_c.x as int, COORD_LIMIT as int, 2 * COORD_LIMIT);
    }
    let det = dot(a_to_b, u_vec);

    // One-sided determinant test: backfaces and degenerate triangles are
    // rejected at once (exact arithmetic needs no epsilon).
    if det <= 0 {
        return;
    }

    let a_to_origin = ray.o.sub(a);
    let u_num = dot(a_to_origin, u_vec);
    if u_num < 0 || u_num > det {
        return;
    }

    let v_vec = cross(a_to_origin, a_to_b);
    proof {
        lemma_mul_bound(a_to_origin.y as int, a_to_b.z as int, 2 * COORD_LIMIT, 2 * COORD_LIMIT);
        lemma_mul_bound(a_to_origin.z as int, a_to_b.y as int, 2 * COORD_LIMIT, 2 * COORD_LIMIT);
        lemma_mul_bound(a_to_origin.z as int, a_to_b.x as int, 2 * COORD_LIMIT, 2 * COORD_LIMIT);
        lemma_mul_bound(a_to_origin.x as int, a_to_b.z as int, 2 * COORD_LIMIT, 2 * COORD_LIMIT);
        lemma_mul_bound(a_to_origin.x as int, a_to_b.y as int, 2 * COORD_LIMIT, 2 * COORD_LIMIT);
        lemma_mul_bound(a_to_origin.y as int, a_to_b.x as int, 2 * COORD_LIMIT, 2 * COORD_LIMIT);
    }
    let v_num = dot(ray.d, v_vec);
    proof {
        lemma_mul_bound(a_to_origin.x as int, u_vec.x as int, 2 * COORD_LIMIT, 4 * COORD_LIMIT * COORD_LIMIT);
        lemma_mul_bound(a_to_origin.y as int, u_vec.y as int, 2 * COORD_LIMIT, 4 * COORD_LIMIT * COORD_LIMIT);
        lemma_mul_bound(a_to_origin.z as int, u_vec.z as int, 2 * COORD_LIMIT, 4 * COORD_LIMIT * COORD_LIMIT);
        lemma_mul_bound(ray.d.x as int, v_vec.x as int, COORD_LIMIT as int, 8 * COORD_LIMIT * COORD_LIMIT);
        lemma_mul_bound(ray.d.y as int, v_vec.y as int, COORD_LIMIT as int, 8 * COORD_LIMIT * COORD_LIMIT);
        lemma_mul_bound(ray.d.z as int, v_vec.z as int, COORD_LIMIT as int, 8 * COORD_LIMIT * COORD_LIMIT);
    }
    if v_num < 0 || u_num + v_num > det {
        return;
    }

    let t_num = dot(a_to_c, v_vec);

    if t_num > 0 && rat_lt_exec(t_num, det, ray.t_num, ray.t_den) {
        ray.t_num = t_num;
        ray.t_den = det;
        ray.prim = prim;
    }
}

// --- The ray/box slab test, in exact arithmetic. ---

/// The running state of the slab test: the entry distance (a maximum of
/// per-axis entries, starting at minus infinity `(-1, 0)`), the exit distance
/// (a minimum, starting at plus infinity `(1, 0)`), and whether some
/// direction-parallel axis has already ruled the box out.
pub ghost struct SlabState {
    pub near_n: int,
    pub near_d: int,
    pub far_n: int,
    pub far_d: int,
    pub alive: bool,
}

pub open spec fn slab_init() -> SlabState {
    SlabState { near_n: -1, near_d: 0, far_n: 1, far_d: 0, alive: true }
}

pub open spec fn slab_step(st: SlabState, bmin: int, bmax: int, oa: int, da: int) -> SlabState {
    if !st.alive {
        st
    } else if da == 0 {
        if bmin <= oa <= bmax {
            st
        } else {
            SlabState { alive: false, ..st }
        }
    } else {
        let den = if da > 0 { da } else { -da };
        let n1 = if da > 0 { bmin - oa } else { oa - bmin };
        let n2 = if da > 0 { bmax - oa } else { oa - bmax };
        let tmin_n = if rat_lt(n2, den, n1, den) { n2 } else { n1 };
        let tmax_n = if rat_lt(n2, den, n1, den) { n1 } else { n2 };
        let near_n = if rat_lt(st.near_n, st.near_d, tmin_n, den) { tmin_n } else { st.near_n };
        let near_d = if rat_lt(st.near_n, st.near_d, tmin_n, den) { den } else { st.near_d };
        let far_n = if rat_lt(tmax_n, den, st.far_n, st.far_d) { tmax_n } else { st.far_n };
        let far_d = if rat_lt(tmax_n, den, st.far_n, st.far_d) { den } else { st.far_d };
        SlabState { near_n, near_d, far_n, far_d, alive: true }
    }
}

pub open spec fn slab_fold(b: Aabb, o: Point, d: Point) -> SlabState {
    slab_step(
        slab_step(
            slab_step(slab_init(), b.minx as int, b.maxx as int, o.x as int, d.x as int),
            b.miny as int,
            b.maxy as int,
            o.y as int,
            d.y as int,
        ),
        b.minz as int,
        b.maxz as int,
        o.z as int,
        d.z as int,
    )
}

/// The slab test reports a hit: the entry interval is non-empty, the box is
/// entered before the ray's current best hit, and it is exited in front of
/// the origin.
pub open spec fn spec_slab_hit(b: Aabb, o: Point, d: Point, tn: int, td: int) -> bool {
    let st = slab_fold(b, o, d);
    &&& st.alive
    &&& !rat_lt(st.far_n, st.far_d, st.near_n, st.near_d)
    &&& rat_lt(st.near_n, st.near_d, tn, td)
    &&& st.far_n > 0
}

/// The distance the slab test returns: the entry distance on a hit, the
/// infinity sentinel `(1, 0)` on a miss.
pub open spec fn spec_slab_dist(b: Aabb, o: Point, d: Point, tn: int, td: int) -> (int, int) {
    if spec_slab_hit(b, o, d, tn, td) {
        (slab_fold(b, o, d).near_n, slab_fold(b, o, d).near_d)
    } else {
        (1, 0)
    }
}

/// A hit distance handed back by the slab test.  `den == 0` (the pair
/// `(1, 0)`) is the miss sentinel, so callers compare distances numerically,
/// never through a separate flag.
#[derive(Clone, Copy, PartialEq, Eq, Structural, Debug)]
pub struct Dist {
    pub num: i64,
    pub den: i64,
}

impl Dist {
    pub fn is_miss(&self) -> (r: bool)
        ensures
            r == (self.den == 0),
    {
        self.den == 0
    }
}

/// One axis of the executable slab test.
fn slab_axis(
    near_n: i64, near_d: i64, far_n: i64, far_d: i64, alive: bool,
    bmin: i64, bmax: i64, oa: i64, da: i64,
) -> (r: (i64, i64, i64, i64, bool))
    requires
        crate::geom::coord_ok(bmin),
        crate::geom::coord_ok(bmax),
        crate::geom::coord_ok(oa),
        crate::geom::coord_ok(da),
    ensures
        ({
            let st = slab_step(
                SlabState {
                    near_n: near_n as int,
                    near_d: near_d as int,
                    far_n: far_n as int,
                    far_d: far_d as int,
                    alive,
                },
                bmin as int,
                bmax as int,
                oa as int,
                da as int,
            );
            r.0 == st.near_n && r.1 == st.near_d && r.2 == st.far_n && r.3 == st.far_d
                && r.4 == st.alive
        }),
{
    if !alive {
        (near_n, near_d, far_n, far_d, alive)
    } else if da == 0 {
        if bmin <= oa && oa <= bmax {
            (near_n, near_d, far_n, far_d, true)
        } else {
            (near_n, near_d, far_n, far_d, false)
        }
    } else {
        let den: i64 = if da > 0 { da } else { -da };
        let n1: i64 = if da > 0 { bmin - oa } else { oa - bmin };
        let n2: i64 = if da > 0 { bmax - oa } else { oa - bmax };
        let swapped = rat_lt_exec(n2, den, n1, den);
        let tmin_n: i64 = if swapped { n2 } else { n1 };
        let tmax_n: i64 = if swapped { n1 } else { n2 };
        let take_near = rat_lt_exec(near_n, near_d, tmin_n, den);
        let nn: i64 = if take_near { tmin_n } else { near_n };
        let nd: i64 = if take_near { den } else { near_d };
        let take_far = rat_lt_exec(tmax_n, den, far_n, far_d);
        let fn_: i64 = if take_far { tmax_n } else { far_n };
        let fd: i64 = if take_far { den } else { far_d };
        (nn, nd, fn_, fd, true)
    }
}

/// Ray/box intersection by per-axis slab intervals.  Returns the entry
/// distance, or the infinity sentinel when the box is missed or cannot hold
/// anything nearer than the ray's current best hit.
pub fn slab_test(b: &Aabb, ray: &Ray) -> (r: Dist)
    requires
        aabb_ok(*b),
        ray.wf(),
    ensures
        r.num as int == spec_slab_dist(*b, ray.o, ray.d, ray.t_num as int, ray.t_den as int).0,
        r.den as int == spec_slab_dist(*b, ray.o, ray.d, ray.t_num as int, ray.t_den as int).1,
        wf_rat(r.num as int, r.den as int),
        r.den == 0 ==> r.num == 1,
{
    let s1 = slab_axis(-1, 0, 1, 0, true, b.minx, b.maxx, ray.o.x, ray.d.x);
    let s2 = slab_axis(s1.0, s1.1, s1.2, s1.3, s1.4, b.miny, b.maxy, ray.o.y, ray.d.y);
    let s3 = slab_axis(s2.0, s2.1, s2.2, s2.3, s2.4, b.minz, b.maxz, ray.o.z, ray.d.z);
    let (near_n, near_d, far_n, far_d, alive) = s3;
    if alive && !rat_lt_exec(far_n, far_d, near_n, near_d)
        && rat_lt_exec(near_n, near_d, ray.t_num, ray.t_den) && far_n > 0 {
        proof {
            lemma_slab_fold_wf(*b, ray.o, ray.d);
        }
        Dist { num: near_n, den: near_d }
    } else {
        Dist { num: 1, den: 0 }
    }
}

/// After folding all three axes of a well-formed ray over a box, a state that
/// is still alive has a finite, well-formed entry distance.
pub proof fn lemma_slab_fold_wf(b: Aabb, o: Point, d: Point)
    requires
        !(d.x == 0 && d.y == 0 && d.z == 0),
    ensures
        slab_fold(b, o, d).alive ==> {
            let st = slab_fold(b, o, d);
            st.near_d > 0 && st.far_d > 0
        },
{
    let s0 = slab_init();
    let s1 = slab_step(s0, b.minx as int, b.maxx as int, o.x as int, d.x as int);
    let s2 = slab_step(s1, b.miny as int, b.maxy as int, o.y as int, d.y as int);
    let s3 = slab_step(s2, b.minz as int, b.maxz as int, o.z as int, d.z as int);
    if s3.alive {
        // A dead state never comes back to life, so every intermediate state
        // was alive; once some axis with a nonzero direction component has
        // been folded in, both distances are finite and stay finite.
        assert(s1.alive && s2.alive);
        assert(forall|tn: int, dn: int| dn > 0 ==> #[trigger] rat_lt(-1, 0, tn, dn)) by (nonlinear_arith);
        assert(forall|tn: int, dn: int| dn > 0 ==> #[trigger] rat_lt(tn, dn, 1, 0)) by (nonlinear_arith);
        assert(d.x != 0 ==> s1.near_d > 0 && s1.far_d > 0);
        assert(d.x == 0 ==> s1 == s0);
        assert(d.y != 0 ==> s2.near_d > 0 && s2.far_d > 0);
        assert(s1.near_d > 0 ==> s2.near_d > 0);
        assert(s1.far_d > 0 ==> s2.far_d > 0);
        assert(d.y == 0 ==> s2 == s1);
        assert(d.z != 0 ==> s3.near_d > 0 && s3.far_d > 0);
        assert(s2.near_d > 0 ==> s3.near_d > 0);
        assert(s2.far_d > 0 ==> s3.far_d > 0);
    }
}

} // verus!
