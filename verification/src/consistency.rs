//! The geometry behind the consistency law: a committed ray/triangle hit
//! lies inside every box that contains the triangle, so the slab test can
//! never prune a box that still hides a nearer hit.

use vstd::prelude::*;
use crate::geom::{Point, Triangle};
use crate::aabb::{Aabb, aabb_contains_tri, aabb_contains_aabb};
use crate::ray::{
    spec_det, spec_u_num, spec_v_num, spec_t_num, spec_hits, rat_le, rat_lt, wf_rat,
    SlabState, slab_init, slab_step, slab_fold, spec_slab_hit, spec_slab_dist,
    lemma_rat_le_trans, lemma_rat_le_lt_trans, lemma_slab_fold_wf,
};
use crate::bvh::{BVHNode, node_aabb, wf_subtree, wf_split, subtree_count, subtree_end};

verus! {

/// Expansion of `(a.h) * b_k - (b.h) * a_k` over the other two components
/// of `h`: the `h_k` terms cancel.
#[verifier::spinoff_prover]
proof fn lemma_expand(
    hx: int, hy: int, hz: int,
    ax: int, ay: int, az: int,
    bx: int, by: int, bz: int,
)
    ensures
        (ax * hx + ay * hy + az * hz) * bx - (bx * hx + by * hy + bz * hz) * ax
            == hy * (ay * bx - by * ax) + hz * (az * bx - bz * ax),
        (ax * hx + ay * hy + az * hz) * by - (bx * hx + by * hy + bz * hz) * ay
            == hx * (ax * by - bx * ay) + hz * (az * by - bz * ay),
        (ax * hx + ay * hy + az * hz) * bz - (bx * hx + by * hy + bz * hz) * az
            == hx * (ax * bz - bx * az) + hy * (ay * bz - by * az),
{
    broadcast use vstd::arithmetic::mul::group_mul_properties;
    assert((ax * hx + ay * hy + az * hz) * bx
        == (ax * hx) * bx + (ay * hy) * bx + (az * hz) * bx);
    assert((bx * hx + by * hy + bz * hz) * ax
        == (bx * hx) * ax + (by * hy) * ax + (bz * hz) * ax);
    assert((ax * hx) * bx == (bx * hx) * ax);
    assert((ay * hy) * bx == hy * (ay * bx));
    assert((az * hz) * bx == hz * (az * bx));
    assert((by * hy) * ax == hy * (by * ax));
    assert((bz * hz) * ax == hz * (bz * ax));
    assert(hy * (ay * bx) - hy * (by * ax) == hy * (ay * bx - by * ax));
    assert(hz * (az * bx) - hz * (bz * ax) == hz * (az * bx - bz * ax));

    assert((ax * hx + ay * hy + az * hz) * by
        == (ax * hx) * by + (ay * hy) * by + (az * hz) * by);
    assert((bx * hx + by * hy + bz * hz) * ay
        == (bx * hx) * ay + (by * hy) * ay + (bz * hz) * ay);
    assert((ay * hy) * by == (by * hy) * ay);
    assert((ax * hx) * by == hx * (ax * by));
    assert((az * hz) * by == hz * (az * by));
    assert((bx * hx) * ay == hx * (bx * ay));
    assert((bz * hz) * ay == hz * (bz * ay));
    assert(hx * (ax * by) - hx * (bx * ay) == hx * (ax * by - bx * ay));
    assert(hz * (az * by) - hz * (bz * ay) == hz * (az * by - bz * ay));

    assert((ax * hx + ay * hy + az * hz) * bz
        == (ax * hx) * bz + (ay * hy) * bz + (az * hz) * bz);
    assert((bx * hx + by * hy + bz * hz) * az
        == (bx * hx) * az + (by * hy) * az + (bz * hz) * az);
    assert((az * hz) * bz == (bz * hz) * az);
    assert((ax * hx) * bz == hx * (ax * bz));
    assert((ay * hy) * bz == hy * (ay * bz));
    assert((bx * hx) * az == hx * (bx * az));
    assert((by * hy) * az == hy * (by * az));
    assert(hx * (ax * bz) - hx * (bx * az) == hx * (ax * bz - bx * az));
    assert(hy * (ay * bz) - hy * (by * az) == hy * (ay * bz - by * az));
}

/// Cramer's rule for the Moeller-Trumbore system over raw components:
/// `det * s == u * e1 + v * e2 - t * d`, component by component, where
/// `h = d x e2`, `q = s x e1`, and the four scalars are the dot products
/// the algorithm computes.  Scaled by the determinant, the hit point is the
/// barycentric combination of the triangle's corners.
#[verifier::spinoff_prover]
proof fn lemma_cramer_raw(
    sx: int, sy: int, sz: int,
    dx: int, dy: int, dz: int,
    e1x: int, e1y: int, e1z: int,
    e2x: int, e2y: int, e2z: int,
    hx: int, hy: int, hz: int,
    qx: int, qy: int, qz: int,
    det: int, u: int, v: int, tn: int,
)
    requires
        hx == dy * e2z - dz * e2y,
        hy == dz * e2x - dx * e2z,
        hz == dx * e2y - dy * e2x,
        qx == sy * e1z - sz * e1y,
        qy == sz * e1x - sx * e1z,
        qz == sx * e1y - sy * e1x,
        det == e1x * hx + e1y * hy + e1z * hz,
        u == sx * hx + sy * hy + sz * hz,
        v == dx * qx + dy * qy + dz * qz,
        tn == e2x * qx + e2y * qy + e2z * qz,
    ensures
        det * sx == u * e1x + v * e2x - tn * dx,
        det * sy == u * e1y + v * e2y - tn * dy,
        det * sz == u * e1z + v * e2z - tn * dz,
{
    // det * s_k - u * e1_k unfolds over h; v * e2_k - tn * d_k unfolds over
    // q; after commuting factors, both come to the same two products.
    lemma_expand(hx, hy, hz, e1x, e1y, e1z, sx, sy, sz);
    lemma_expand(qx, qy, qz, dx, dy, dz, e2x, e2y, e2z);
    vstd::arithmetic::mul::lemma_mul_is_commutative(e1y, sx);
    vstd::arithmetic::mul::lemma_mul_is_commutative(e1z, sx);
    vstd::arithmetic::mul::lemma_mul_is_commutative(e1x, sy);
    vstd::arithmetic::mul::lemma_mul_is_commutative(e1z, sy);
    vstd::arithmetic::mul::lemma_mul_is_commutative(e1x, sz);
    vstd::arithmetic::mul::lemma_mul_is_commutative(e1y, sz);
    vstd::arithmetic::mul::lemma_mul_is_commutative(e2x, dy);
    vstd::arithmetic::mul::lemma_mul_is_commutative(e2x, dz);
    vstd::arithmetic::mul::lemma_mul_is_commutative(e2y, dx);
    vstd::arithmetic::mul::lemma_mul_is_commutative(e2y, dz);
    vstd::arithmetic::mul::lemma_mul_is_commutative(e2z, dx);
    vstd::arithmetic::mul::lemma_mul_is_commutative(e2z, dy);
    // Push the sign inside each product that appears negated.
    vstd::arithmetic::mul::lemma_mul_is_distributive_sub(hz, 0, qy);
    vstd::arithmetic::mul::lemma_mul_is_distributive_sub(hx, 0, qz);
    vstd::arithmetic::mul::lemma_mul_is_distributive_sub(hy, 0, qx);
    vstd::arithmetic::mul::lemma_mul_is_distributive_sub(qy, 0, hz);
    vstd::arithmetic::mul::lemma_mul_is_distributive_sub(qz, 0, hx);
    vstd::arithmetic::mul::lemma_mul_is_distributive_sub(qx, 0, hy);
    vstd::arithmetic::mul::lemma_mul_is_commutative(qy, hz);
    vstd::arithmetic::mul::lemma_mul_is_commutative(qz, hy);
    vstd::arithmetic::mul::lemma_mul_is_commutative(qx, hz);
    vstd::arithmetic::mul::lemma_mul_is_commutative(qz, hx);
    vstd::arithmetic::mul::lemma_mul_is_commutative(qx, hy);
    vstd::arithmetic::mul::lemma_mul_is_commutative(qy, hx);

    assert(e1y * sx - sy * e1x == qz);
    assert(e1z * sx - sz * e1x == -qy);
    assert(hy * (e1y * sx - sy * e1x) == hy * qz);
    assert(hz * (e1z * sx - sz * e1x) == hz * (0 - qy));
    assert(det * sx - u * e1x == hy * qz - hz * qy);
    assert(dy * e2x - e2y * dx == -hz);
    assert(dz * e2x - e2z * dx == hy);
    assert(qy * (dy * e2x - e2y * dx) == qy * (0 - hz));
    assert(qz * (dz * e2x - e2z * dx) == qz * hy);
    assert(v * e2x - tn * dx == hy * qz - hz * qy);

    assert(e1x * sy - sx * e1y == -qz);
    assert(e1z * sy - sz * e1y == qx);
    assert(hx * (e1x * sy - sx * e1y) == hx * (0 - qz));
    assert(hz * (e1z * sy - sz * e1y) == hz * qx);
    assert(det * sy - u * e1y == hz * qx - hx * qz);
    assert(dx * e2y - e2x * dy == hz);
    assert(dz * e2y - e2z * dy == -hx);
    assert(qx * (dx * e2y - e2x * dy) == qx * hz);
    assert(qz * (dz * e2y - e2z * dy) == qz * (0 - hx));
    assert(v * e2y - tn * dy == hz * qx - hx * qz);

    assert(e1x * sz - sx * e1z == qy);
    assert(e1y * sz - sy * e1z == -qx);
    assert(hx * (e1x * sz - sx * e1z) == hx * qy);
    assert(hy * (e1y * sz - sy * e1z) == hy * (0 - qx));
    assert(det * sz - u * e1z == hx * qy - hy * qx);
    assert(dx * e2z - e2x * dz == -hy);
    assert(dy * e2z - e2y * dz == hx);
    assert(qx * (dx * e2z - e2x * dz) == qx * (0 - hy));
    assert(qy * (dy * e2z - e2y * dz) == qy * hx);
    assert(v * e2z - tn * dz == hx * qy - hy * qx);
}

/// A real hit lies inside any box that contains the whole triangle, scaled
/// by the (positive) determinant: on every axis,
/// `det * min <= det * origin + t_num * direction <= det * max`.
#[verifier::spinoff_prover]
pub proof fn lemma_hit_in_box(t: Triangle, o: Point, d: Point, b: Aabb)
    requires
        spec_hits(t, o, d),
        aabb_contains_tri(b, t),
    ensures
        spec_det(t, d) * b.minx <= spec_det(t, d) * o.x + spec_t_num(t, o, d) * d.x
            <= spec_det(t, d) * b.maxx,
        spec_det(t, d) * b.miny <= spec_det(t, d) * o.y + spec_t_num(t, o, d) * d.y
            <= spec_det(t, d) * b.maxy,
        spec_det(t, d) * b.minz <= spec_det(t, d) * o.z + spec_t_num(t, o, d) * d.z
            <= spec_det(t, d) * b.maxz,
{
    let sx = o.x - t.v0.x as int;
    let sy = o.y - t.v0.y as int;
    let sz = o.z - t.v0.z as int;
    let e1x = t.v1.x - t.v0.x as int;
    let e1y = t.v1.y - t.v0.y as int;
    let e1z = t.v1.z - t.v0.z as int;
    let e2x = t.v2.x - t.v0.x as int;
    let e2y = t.v2.y - t.v0.y as int;
    let e2z = t.v2.z - t.v0.z as int;
    let hx = (d.y as int) * e2z - (d.z as int) * e2y;
    let hy = (d.z as int) * e2x - (d.x as int) * e2z;
    let hz = (d.x as int) * e2y - (d.y as int) * e2x;
    let qx = sy * e1z - sz * e1y;
    let qy = sz * e1x - sx * e1z;
    let qz = sx * e1y - sy * e1x;
    let det = spec_det(t, d);
    let u = spec_u_num(t, o, d);
    let v = spec_v_num(t, o, d);
    let tn = spec_t_num(t, o, d);
    assert(det == e1x * hx + e1y * hy + e1z * hz);
    assert(u == sx * hx + sy * hy + sz * hz);
    assert(v == (d.x as int) * qx + (d.y as int) * qy + (d.z as int) * qz);
    assert(tn == e2x * qx + e2y * qy + e2z * qz);
    lemma_cramer_raw(
        sx, sy, sz, d.x as int, d.y as int, d.z as int,
        e1x, e1y, e1z, e2x, e2y, e2z, hx, hy, hz, qx, qy, qz, det, u, v, tn,
    );
    let w = det - u - v;
    lemma_axis_convex(det, u, v, w, o.x as int, t.v0.x as int, t.v1.x as int, t.v2.x as int,
        tn, d.x as int, b.minx as int, b.maxx as int);
    lemma_axis_convex(det, u, v, w, o.y as int, t.v0.y as int, t.v1.y as int, t.v2.y as int,
        tn, d.y as int, b.miny as int, b.maxy as int);
    lemma_axis_convex(det, u, v, w, o.z as int, t.v0.z as int, t.v1.z as int, t.v2.z as int,
        tn, d.z as int, b.minz as int, b.maxz as int);
}

/// One axis of the convex-combination argument: with non-negative weights
/// summing to `det`, the weighted combination of three bounded coordinates
/// stays inside the scaled bounds.
#[verifier::spinoff_prover]
proof fn lemma_axis_convex(
    det: int, u: int, v: int, w: int,
    oa: int, a0: int, a1: int, a2: int,
    tn: int, da: int, bmin: int, bmax: int,
)
    requires
        w == det - u - v,
        0 <= u,
        0 <= v,
        0 <= w,
        det * (oa - a0) == u * (a1 - a0) + v * (a2 - a0) - tn * da,
        bmin <= a0 <= bmax,
        bmin <= a1 <= bmax,
        bmin <= a2 <= bmax,
    ensures
        det * bmin <= det * oa + tn * da <= det * bmax,
{
    broadcast use vstd::arithmetic::mul::group_mul_properties;
    assert(det * oa + tn * da == w * a0 + u * a1 + v * a2) by {
        assert(det * (oa - a0) == det * oa - det * a0);
        assert(u * (a1 - a0) == u * a1 - u * a0);
        assert(v * (a2 - a0) == v * a2 - v * a0);
        assert(det * a0 - u * a0 - v * a0 == w * a0);
    }
    vstd::arithmetic::mul::lemma_mul_inequality(bmin, a0, w);
    vstd::arithmetic::mul::lemma_mul_inequality(bmin, a1, u);
    vstd::arithmetic::mul::lemma_mul_inequality(bmin, a2, v);
    vstd::arithmetic::mul::lemma_mul_inequality(a0, bmax, w);
    vstd::arithmetic::mul::lemma_mul_inequality(a1, bmax, u);
    vstd::arithmetic::mul::lemma_mul_inequality(a2, bmax, v);
    assert(w * bmin + u * bmin + v * bmin == det * bmin) by {
        assert((w + u + v) * bmin == w * bmin + u * bmin + v * bmin);
    }
    assert(w * bmax + u * bmax + v * bmax == det * bmax) by {
        assert((w + u + v) * bmax == w * bmax + u * bmax + v * bmax);
    }
}

/// One axis of the slab fold keeps bracketing a hit that lies inside the
/// box: the entry distance stays at or below the hit, the exit distance at
/// or above it, and the state stays alive.
#[verifier::spinoff_prover]
proof fn lemma_slab_step_brackets(
    st: SlabState, bmin: int, bmax: int, oa: int, da: int, tnh: int, tdh: int,
)
    requires
        st.alive,
        tdh > 0,
        rat_le(st.near_n, st.near_d, tnh, tdh),
        rat_le(tnh, tdh, st.far_n, st.far_d),
        tdh * bmin <= tdh * oa + tnh * da <= tdh * bmax,
    ensures
        ({
            let st2 = slab_step(st, bmin, bmax, oa, da);
            &&& st2.alive
            &&& rat_le(st2.near_n, st2.near_d, tnh, tdh)
            &&& rat_le(tnh, tdh, st2.far_n, st2.far_d)
        }),
{
    if da == 0 {
        assert(bmin <= oa && oa <= bmax) by (nonlinear_arith)
            requires
                tdh * bmin <= tdh * oa,
                tdh * oa <= tdh * bmax,
                tdh > 0;
    } else {
        let den = if da > 0 { da } else { -da };
        let n1 = if da > 0 { bmin - oa } else { oa - bmin };
        let n2 = if da > 0 { bmax - oa } else { oa - bmax };
        // The slab's two crossing distances bracket the hit: one is at or
        // below it, the other at or above.
        if da > 0 {
            assert(rat_le(n1, den, tnh, tdh) && rat_le(tnh, tdh, n2, den)) by (nonlinear_arith)
                requires
                    n1 == bmin - oa,
                    n2 == bmax - oa,
                    den == da,
                    da > 0,
                    tdh > 0,
                    tdh * bmin <= tdh * oa + tnh * da <= tdh * bmax;
        } else {
            assert(rat_le(n2, den, tnh, tdh) && rat_le(tnh, tdh, n1, den)) by (nonlinear_arith)
                requires
                    n1 == oa - bmin,
                    n2 == oa - bmax,
                    den == -da,
                    da < 0,
                    tdh > 0,
                    tdh * bmin <= tdh * oa + tnh * da <= tdh * bmax;
        }
        let tmin_n = if rat_lt(n2, den, n1, den) { n2 } else { n1 };
        let tmax_n = if rat_lt(n2, den, n1, den) { n1 } else { n2 };
        // One of the two crossings is at or below the hit, the other at or
        // above; the chosen minimum and maximum inherit those sides.
        let lo_n = if da > 0 { n1 } else { n2 };
        let hi_n = if da > 0 { n2 } else { n1 };
        assert(den > 0);
        assert(rat_le(lo_n, den, tnh, tdh));
        assert(rat_le(tnh, tdh, hi_n, den));
        if tmin_n != lo_n {
            assert(rat_le(hi_n, den, lo_n, den));
            lemma_rat_le_trans(hi_n, den, lo_n, den, tnh, tdh);
        }
        if tmax_n != hi_n {
            assert(rat_le(hi_n, den, lo_n, den));
            lemma_rat_le_trans(tnh, tdh, hi_n, den, lo_n, den);
        }
        assert(rat_le(tmin_n, den, tnh, tdh));
        assert(rat_le(tnh, tdh, tmax_n, den));
    }
}

/// A hit inside the box is bracketed by the whole slab fold: the fold stays
/// alive, its entry distance is at or below the hit, its exit distance at or
/// above it.
#[verifier::spinoff_prover]
pub proof fn lemma_slab_brackets_hit(b: Aabb, o: Point, d: Point, tnh: int, tdh: int)
    requires
        tdh > 0,
        tdh * b.minx <= tdh * o.x + tnh * d.x <= tdh * b.maxx,
        tdh * b.miny <= tdh * o.y + tnh * d.y <= tdh * b.maxy,
        tdh * b.minz <= tdh * o.z + tnh * d.z <= tdh * b.maxz,
    ensures
        ({
            let st = slab_fold(b, o, d);
            &&& st.alive
            &&& rat_le(st.near_n, st.near_d, tnh, tdh)
            &&& rat_le(tnh, tdh, st.far_n, st.far_d)
        }),
{
    let s0 = slab_init();
    assert(rat_le(s0.near_n, s0.near_d, tnh, tdh));
    assert(rat_le(tnh, tdh, s0.far_n, s0.far_d));
    lemma_slab_step_brackets(s0, b.minx as int, b.maxx as int, o.x as int, d.x as int, tnh, tdh);
    let s1 = slab_step(s0, b.minx as int, b.maxx as int, o.x as int, d.x as int);
    lemma_slab_step_brackets(s1, b.miny as int, b.maxy as int, o.y as int, d.y as int, tnh, tdh);
    let s2 = slab_step(s1, b.miny as int, b.maxy as int, o.y as int, d.y as int);
    lemma_slab_step_brackets(s2, b.minz as int, b.maxz as int, o.z as int, d.z as int, tnh, tdh);
}

/// The slab test cannot miss a box holding a triangle whose hit is strictly
/// nearer than the ray's current best: it reports a hit, at an entry
/// distance no further than that hit.
#[verifier::spinoff_prover]
pub proof fn lemma_slab_sees_hit(
    b: Aabb, o: Point, d: Point, t: Triangle, tn: int, td: int,
)
    requires
        spec_hits(t, o, d),
        aabb_contains_tri(b, t),
        !(d.x == 0 && d.y == 0 && d.z == 0),
        wf_rat(tn, td),
        rat_lt(spec_t_num(t, o, d), spec_det(t, d), tn, td),
    ensures
        spec_slab_hit(b, o, d, tn, td),
        ({
            let dist = spec_slab_dist(b, o, d, tn, td);
            rat_le(dist.0, dist.1, spec_t_num(t, o, d), spec_det(t, d))
        }),
{
    let tnh = spec_t_num(t, o, d);
    let tdh = spec_det(t, d);
    lemma_hit_in_box(t, o, d, b);
    lemma_slab_brackets_hit(b, o, d, tnh, tdh);
    lemma_slab_fold_wf(b, o, d);
    let st = slab_fold(b, o, d);
    lemma_rat_le_trans(st.near_n, st.near_d, tnh, tdh, st.far_n, st.far_d);
    lemma_rat_le_lt_trans(st.near_n, st.near_d, tnh, tdh, tn, td);
    lemma_far_pos(tnh, tdh, st.far_n, st.far_d);
}

/// A distance at or above a strictly positive finite one has a positive
/// numerator.
proof fn lemma_far_pos(tnh: int, tdh: int, fnum: int, fden: int)
    by (nonlinear_arith)
    requires
        rat_le(tnh, tdh, fnum, fden),
        tnh > 0,
        tdh > 0,
        fden > 0,
    ensures
        fnum > 0,
{
}

/// Every triangle of a well-formed subtree's index range lies inside the
/// subtree root's box.
#[verifier::spinoff_prover]
pub proof fn lemma_subtree_in_box(
    nodes: Seq<BVHNode>,
    ids: Seq<u32>,
    tris: Seq<Triangle>,
    i: int,
    start: int,
    count: int,
    lo: int,
    hi: int,
)
    requires
        wf_subtree(nodes, ids, tris, i, start, count, lo, hi),
    ensures
        forall|j: int|
            start <= j < start + count ==> (#[trigger] ids[j]) < tris.len()
                && aabb_contains_tri(node_aabb(nodes[i]), tris[ids[j] as int]),
    decreases count,
{
    if nodes[i].count > 0 {
    } else {
        let c1 = subtree_count(nodes, lo);
        let mid = subtree_end(nodes, lo, lo + 2);
        assert(wf_split(nodes, ids, tris, i, start, count, lo, hi, c1, mid));
        lemma_subtree_in_box(nodes, ids, tris, lo, start, c1, lo + 2, mid);
        lemma_subtree_in_box(nodes, ids, tris, lo + 1, start + c1, count - c1, mid, hi);
        assert(aabb_contains_aabb(node_aabb(nodes[i]), node_aabb(nodes[lo])));
        assert(aabb_contains_aabb(node_aabb(nodes[i]), node_aabb(nodes[lo + 1])));
    }
}

} // verus!
