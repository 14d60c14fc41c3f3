// Ray queries: the quad scenario, exact hit distances, culling, misses, the
// empty scene, and agreement between the traversal and the linear scan.

use cogrrs::bvh::Bvh;
use cogrrs::geom::{Point, Triangle};
use cogrrs::ray::{Ray, PRIM_NONE};

fn tri(ax: i64, ay: i64, az: i64, bx: i64, by: i64, bz: i64, cx: i64, cy: i64, cz: i64) -> Triangle {
    Triangle {
        v0: Point::new(ax, ay, az),
        v1: Point::new(bx, by, bz),
        v2: Point::new(cx, cy, cz),
    }
}

// Two triangles forming the quad [0,2]x[0,2] in the z=0 plane, both wound so
// that a ray travelling towards +z sees their front faces.
fn unit_quad() -> Vec<Triangle> {
    vec![
        tri(0, 0, 0, 0, 2, 0, 2, 0, 0),
        tri(2, 2, 0, 2, 0, 0, 0, 2, 0),
    ]
}

fn built(tris: Vec<Triangle>) -> Bvh {
    let mut b = Bvh::new(tris);
    b.build_bvh();
    b
}

fn lcg(state: &mut u64) -> i64 {
    *state = state.wrapping_mul(6364136223846793005).wrapping_add(1442695040888963407);
    ((*state >> 33) % 2001) as i64 - 1000
}

fn random_mesh(count: usize, seed: u64) -> Vec<Triangle> {
    let mut s = seed;
    let mut tris = Vec::new();
    for _ in 0..count {
        let x = lcg(&mut s);
        let y = lcg(&mut s);
        let z = lcg(&mut s);
        let t = tri(
            x, y, z,
            x + 1 + (lcg(&mut s) % 120).abs(), y + (lcg(&mut s) % 120), z + (lcg(&mut s) % 120),
            x + (lcg(&mut s) % 120), y + 1 + (lcg(&mut s) % 120).abs(), z + (lcg(&mut s) % 120),
        );
        tris.push(t);
    }
    tris
}

#[test]
fn quad_scenario_builds_one_leaf() {
    let b = built(unit_quad());
    // Two triangles fit below the leaf threshold: the root stays a leaf.
    assert_eq!(b.bvh_nodes.len(), 2);
    assert_eq!(b.bvh_nodes[0].count, 2);
    assert_eq!(b.bvh_nodes[0].left_first, 0);
}

#[test]
fn quad_scenario_center_hit() {
    let b = built(unit_quad());
    let mut ray = Ray::new(Point::new(1, 1, -2), Point::new(0, 0, 1));
    b.fast_intersect(&mut ray);
    assert!(ray.has_hit());
    // The quad plane is two units ahead: t == 2 exactly.
    assert_eq!(ray.t_num, 2 * ray.t_den);
    assert!(ray.prim == 0 || ray.prim == 1);
}

#[test]
fn quad_scenario_miss_keeps_sentinel() {
    let b = built(unit_quad());
    let mut ray = Ray::new(Point::new(5, 5, -2), Point::new(0, 0, 1));
    b.fast_intersect(&mut ray);
    assert!(!ray.has_hit());
    assert_eq!(ray.t_num, 1);
    assert_eq!(ray.t_den, 0);
    assert_eq!(ray.prim, PRIM_NONE);
}

#[test]
fn exact_hit_distance_single_triangle() {
    let b = built(vec![tri(0, 0, 0, 0, 2, 0, 2, 0, 0)]);
    let mut ray = Ray::new(Point::new(0, 0, -3), Point::new(0, 0, 1));
    b.intersect(&mut ray);
    assert!(ray.has_hit());
    // Moeller-Trumbore with this data: determinant 4, distance numerator 12,
    // so t == 3 exactly.
    assert_eq!(ray.t_den, 4);
    assert_eq!(ray.t_num, 12);
    assert_eq!(ray.prim, 0);
}

#[test]
fn backface_is_culled() {
    let b = built(vec![tri(0, 0, 0, 0, 2, 0, 2, 0, 0)]);
    // Same triangle seen from the other side: the determinant flips sign.
    let mut ray = Ray::new(Point::new(0, 0, 3), Point::new(0, 0, -1));
    b.intersect(&mut ray);
    assert!(!ray.has_hit());
}

#[test]
fn degenerate_triangle_is_never_hit() {
    // A zero-area triangle is accepted by the build and rejected by the
    // determinant test, not treated as an error.
    let tris = vec![
        tri(0, 0, 0, 0, 0, 0, 0, 0, 0),
        tri(0, 0, 5, 0, 2, 5, 2, 0, 5),
    ];
    let b = built(tris);
    let mut ray = Ray::new(Point::new(0, 0, -1), Point::new(0, 0, 1));
    b.fast_intersect(&mut ray);
    assert!(ray.has_hit());
    assert_eq!(ray.prim, 1);
    // t == 6 exactly: the hit lies in the z == 5 plane, six units ahead of
    // the origin at z == -1.
    assert_eq!(ray.t_num, 6 * ray.t_den);
}

#[test]
fn empty_scene_reports_no_hit() {
    let b = Bvh::new(Vec::new());
    let mut ray = Ray::new(Point::new(0, 0, 0), Point::new(1, 0, 0));
    b.fast_intersect(&mut ray);
    assert!(!ray.has_hit());
    assert_eq!(ray.prim, PRIM_NONE);
}

#[test]
fn nearest_of_two_parallel_quads() {
    // Two quads at z == 3 and z == 7: the nearer one wins, whatever the
    // order the leaves are visited in.
    let mut tris = Vec::new();
    for z in [7i64, 3] {
        tris.push(tri(0, 0, z, 0, 2, z, 2, 0, z));
        tris.push(tri(2, 2, z, 2, 0, z, 0, 2, z));
    }
    let b = built(tris);
    let mut ray = Ray::new(Point::new(1, 1, 0), Point::new(0, 0, 1));
    b.fast_intersect(&mut ray);
    assert!(ray.has_hit());
    assert_eq!(ray.t_num, 3 * ray.t_den);
    assert!(ray.prim == 2 || ray.prim == 3);
}

#[test]
fn traversal_matches_linear_scan() {
    // Consistency: the traversal's nearest hit equals the brute-force scan's
    // for many rays over a fixed mesh, in distance and winning primitive.
    let tris = random_mesh(150, 41);
    let b = built(tris.clone());
    let flat = Bvh::new(tris);

    let mut s = 97u64;
    for _ in 0..300 {
        let o = Point::new(lcg(&mut s), lcg(&mut s), lcg(&mut s));
        let mut d = Point::new(lcg(&mut s) % 9, lcg(&mut s) % 9, lcg(&mut s) % 9);
        if d.x == 0 && d.y == 0 && d.z == 0 {
            d = Point::new(1, 0, 0);
        }
        let mut fast = Ray::new(o, d);
        let mut slow = Ray::new(o, d);
        b.fast_intersect(&mut fast);
        flat.intersect(&mut slow);
        // Exact rational equality of the hit distances.
        assert_eq!(
            fast.t_num as i128 * slow.t_den as i128,
            slow.t_num as i128 * fast.t_den as i128
        );
        assert_eq!(fast.has_hit(), slow.has_hit());
        assert_eq!(fast.prim, slow.prim);
    }
}

#[test]
fn traversal_only_improves_preset_best() {
    // A ray whose best hit is preset nearer than the geometry keeps it.
    let b = built(unit_quad());
    let mut ray = Ray::new(Point::new(1, 1, -2), Point::new(0, 0, 1));
    ray.t_num = 1;
    ray.t_den = 1;
    ray.prim = 77;
    b.fast_intersect(&mut ray);
    assert_eq!(ray.t_num, 1);
    assert_eq!(ray.t_den, 1);
    assert_eq!(ray.prim, 77);
}
