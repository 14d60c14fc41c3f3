// Structural checks of the finished tree on concrete meshes: partitioning,
// containment, permutation, leaf sizes, node-count bound, and determinism.

use cogrrs::aabb::Aabb;
use cogrrs::bvh::{Bvh, BVHNode, LEAF_THRESHOLD};
use cogrrs::geom::{Point, Triangle};

fn tri(ax: i64, ay: i64, az: i64, bx: i64, by: i64, bz: i64, cx: i64, cy: i64, cz: i64) -> Triangle {
    Triangle {
        v0: Point::new(ax, ay, az),
        v1: Point::new(bx, by, bz),
        v2: Point::new(cx, cy, cz),
    }
}

// A deterministic little generator, so the meshes are fixed across runs.
fn lcg(state: &mut u64) -> i64 {
    *state = state.wrapping_mul(6364136223846793005).wrapping_add(1442695040888963407);
    ((*state >> 33) % 2001) as i64 - 1000
}

fn random_mesh(count: usize, seed: u64) -> Vec<Triangle> {
    let mut s = seed;
    let mut tris = Vec::new();
    for _ in 0..count {
        let x = lcg(&mut s);
        let y = lcg(&mut s);
        let z = lcg(&mut s);
        let t = tri(
            x, y, z,
            x + 1 + (lcg(&mut s) % 50).abs(), y + (lcg(&mut s) % 50), z + (lcg(&mut s) % 50),
            x + (lcg(&mut s) % 50), y + 1 + (lcg(&mut s) % 50).abs(), z + (lcg(&mut s) % 50),
        );
        tris.push(t);
    }
    tris
}

fn built(tris: Vec<Triangle>) -> Bvh {
    let mut b = Bvh::new(tris);
    b.build_bvh();
    b
}

fn node_box(n: &BVHNode) -> Aabb {
    Aabb { minx: n.minx, miny: n.miny, minz: n.minz, maxx: n.maxx, maxy: n.maxy, maxz: n.maxz }
}

fn box_contains_box(outer: &Aabb, inner: &Aabb) -> bool {
    outer.minx <= inner.minx
        && outer.miny <= inner.miny
        && outer.minz <= inner.minz
        && inner.maxx <= outer.maxx
        && inner.maxy <= outer.maxy
        && inner.maxz <= outer.maxz
}

fn box_contains_point(b: &Aabb, p: &Point) -> bool {
    b.minx <= p.x && p.x <= b.maxx
        && b.miny <= p.y && p.y <= b.maxy
        && b.minz <= p.z && p.z <= b.maxz
}

// The number of triangles below a node, recomputed from the pool.
fn subtree_count(nodes: &[BVHNode], i: usize) -> i64 {
    let n = &nodes[i];
    if n.count > 0 {
        n.count as i64
    } else {
        let l = n.left_first as usize;
        subtree_count(nodes, l) + subtree_count(nodes, l + 1)
    }
}

// Walk the tree, checking each node's invariants against the raw arrays.
fn check_node(b: &Bvh, i: usize, start: usize, count: i64) {
    let n = &b.bvh_nodes[i];
    if n.count > 0 {
        // Leaf: owns exactly the range it was given, within the threshold.
        assert!(n.count as i64 == count);
        assert!(n.count <= LEAF_THRESHOLD);
        assert_eq!(n.left_first as usize, start);
        let bx = node_box(n);
        for k in 0..n.count as usize {
            let id = b.indices[start + k] as usize;
            let t = &b.triangles[id];
            assert!(box_contains_point(&bx, &t.v0));
            assert!(box_contains_point(&bx, &t.v1));
            assert!(box_contains_point(&bx, &t.v2));
        }
    } else {
        let l = n.left_first as usize;
        let c1 = subtree_count(&b.bvh_nodes, l);
        let c2 = subtree_count(&b.bvh_nodes, l + 1);
        // Partition law: the children split the count, nothing lost.
        assert_eq!(c1 + c2, count);
        assert!(c1 > 0 && c2 > 0);
        // Containment law: the parent box holds both children's boxes.
        let pb = node_box(n);
        assert!(box_contains_box(&pb, &node_box(&b.bvh_nodes[l])));
        assert!(box_contains_box(&pb, &node_box(&b.bvh_nodes[l + 1])));
        check_node(b, l, start, c1);
        check_node(b, l + 1, start + c1 as usize, c2);
    }
}

#[test]
fn partition_and_containment_laws_random_mesh() {
    let b = built(random_mesh(100, 7));
    check_node(&b, 0, 0, 100);
}

#[test]
fn partition_and_containment_laws_small_meshes() {
    for n in 1..25usize {
        let b = built(random_mesh(n, 1000 + n as u64));
        check_node(&b, 0, 0, n as i64);
    }
}

#[test]
fn permutation_law() {
    let b = built(random_mesh(64, 11));
    let mut seen = b.indices.clone();
    seen.sort();
    let expected: Vec<u32> = (0..64u32).collect();
    assert_eq!(seen, expected);
    assert_eq!(b.indices.len(), 64);
}

#[test]
fn leaf_size_bound() {
    let b = built(random_mesh(200, 13));
    for n in &b.bvh_nodes {
        assert!(n.count <= LEAF_THRESHOLD);
        assert!(n.count >= 0);
    }
}

#[test]
fn node_count_bound() {
    for n in [1usize, 2, 3, 4, 7, 50, 128] {
        let b = built(random_mesh(n, 17 + n as u64));
        assert!(b.bvh_nodes.len() <= 2 * n);
        assert!(b.bvh_nodes.len() >= 2);
    }
}

#[test]
fn determinism_of_build() {
    let tris = random_mesh(80, 23);
    let b1 = built(tris.clone());
    let b2 = built(tris);
    assert_eq!(b1.bvh_nodes.len(), b2.bvh_nodes.len());
    for (m, n) in b1.bvh_nodes.iter().zip(b2.bvh_nodes.iter()) {
        assert_eq!((m.minx, m.miny, m.minz, m.maxx, m.maxy, m.maxz), (n.minx, n.miny, n.minz, n.maxx, n.maxy, n.maxz));
        assert_eq!(m.left_first, n.left_first);
        assert_eq!(m.count, n.count);
    }
    assert_eq!(b1.indices, b2.indices);
    assert_eq!(b1.total_area(), b2.total_area());
}

#[test]
fn centroid_scratch_is_discarded_after_build() {
    let b = built(random_mesh(10, 29));
    assert_eq!(b.centroids.len(), 0);
}

#[test]
fn identical_triangles_still_build_flat_leaves() {
    // Every centroid equal on every axis: no binned plane separates anything,
    // so the builder's middle split must still make progress.
    let one = tri(0, 0, 0, 0, 4, 0, 4, 0, 0);
    let tris: Vec<Triangle> = (0..10).map(|_| one).collect();
    let b = built(tris);
    check_node(&b, 0, 0, 10);
    for n in &b.bvh_nodes {
        assert!(n.count <= LEAF_THRESHOLD);
    }
}

#[test]
fn single_triangle_build() {
    let b = built(vec![tri(0, 0, 0, 0, 2, 0, 2, 0, 0)]);
    assert_eq!(b.bvh_nodes.len(), 2);
    assert_eq!(b.bvh_nodes[0].count, 1);
    assert_eq!(b.bvh_nodes[0].left_first, 0);
    assert_eq!(b.indices, vec![0]);
    // The root box is exactly the triangle's bounds.
    assert_eq!(
        (b.bvh_nodes[0].minx, b.bvh_nodes[0].miny, b.bvh_nodes[0].minz),
        (0, 0, 0)
    );
    assert_eq!(
        (b.bvh_nodes[0].maxx, b.bvh_nodes[0].maxy, b.bvh_nodes[0].maxz),
        (2, 2, 0)
    );
}

#[test]
fn tree_statistics() {
    // A leaf root has depth zero and no internal nodes.
    let small = built(random_mesh(3, 37));
    assert_eq!(small.get_max_depth(0, 0), 0);
    assert_eq!(small.total_internal_nodes(0), 0);

    // A larger tree: every split claims two slots, so the internal-node
    // count ties exactly to the truncated pool length; the depth offset is
    // carried through.
    let big = built(random_mesh(100, 39));
    let internal = big.total_internal_nodes(0);
    assert_eq!(big.bvh_nodes.len(), 2 + 2 * internal as usize);
    let depth = big.get_max_depth(0, 0);
    assert!(depth >= 1);
    assert!((depth as u64) < 100);
    assert_eq!(big.get_max_depth(0, 7), depth + 7);
}

#[test]
fn largest_leaf_is_root_at_threshold() {
    let b = built(random_mesh(3, 31));
    // Three triangles fit the threshold, so the root never splits.
    assert_eq!(b.bvh_nodes.len(), 2);
    assert_eq!(b.bvh_nodes[0].count, 3);
}
