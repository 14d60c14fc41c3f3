//! The node pool and the binned-SAH builder.
//!
//! The tree lives in a flat node array: node 0 is the root, node 1 is unused
//! (the root has no sibling), and the two children of an internal node are
//! always adjacent.  A leaf (`count > 0`) owns `count` consecutive entries of
//! the index permutation starting at `left_first`; an internal node
//! (`count == 0`) stores the slot of its first child in `left_first`.

use vstd::prelude::*;
use vstd::multiset::Multiset;
use vstd::seq_lib::{to_multiset_update, lemma_multiset_commutative};
use crate::geom::{
    Point, Triangle, COORD_LIMIT, point_ok, tri_ok, tris_ok, spec_centroid, spec_component,
    centroid, lemma_centroid_ok, lemma_mul_bound,
};
use crate::aabb::{
    Aabb, aabb_ok, aabb_contains_tri, aabb_contains_aabb, range_bounds, range_cbounds, spec_area,
    lemma_range_bounds_contains, lemma_range_bounds_minimal, lemma_range_bounds_ok,
    lemma_range_cbounds_ok,
};

verus! {

/// A node stops splitting at this many triangles and becomes a leaf.
pub const LEAF_THRESHOLD: i32 = 3;

/// Number of candidate bins per axis in the SAH scan.
pub const BINS: u32 = 8;

/// Most triangles a build accepts; keeps every slot index and count inside
/// `i32`/`u32` and the node pool inside `usize`.
pub const MAX_TRIS: usize = 0x4000_0000;

/// One node of the pool: its box inlined, then `left_first` and `count`.
#[derive(Clone, Copy, PartialEq, Eq, Structural, Debug)]
pub struct BVHNode {
    pub minx: i64,
    pub miny: i64,
    pub minz: i64,
    pub maxx: i64,
    pub maxy: i64,
    pub maxz: i64,
    pub left_first: i32,
    pub count: i32,
}

pub open spec fn node_aabb(n: BVHNode) -> Aabb {
    Aabb { minx: n.minx, miny: n.miny, minz: n.minz, maxx: n.maxx, maxy: n.maxy, maxz: n.maxz }
}

pub open spec fn zero_node() -> BVHNode {
    BVHNode { minx: 0, miny: 0, minz: 0, maxx: 0, maxy: 0, maxz: 0, left_first: 0, count: 0 }
}

/// The identity permutation `0, 1, .., n-1`.
pub open spec fn ident_seq(n: int) -> Seq<u32> {
    Seq::new(n as nat, |i: int| i as u32)
}

/// Every stored triangle id points into the triangle array.
pub open spec fn ids_ok(ids: Seq<u32>, n: int) -> bool {
    forall|j: int| 0 <= j < ids.len() ==> (#[trigger] ids[j]) < n
}

/// The multiset of triangle ids stored in `ids[start .. start+count]`.
pub open spec fn range_mset(ids: Seq<u32>, start: int, count: int) -> Multiset<u32> {
    ids.subrange(start, start + count).to_multiset()
}

/// The box contains every triangle whose id is in the multiset.
pub open spec fn covers_ids(b: Aabb, tris: Seq<Triangle>, ids: Multiset<u32>) -> bool {
    forall|id: u32|
        #[trigger] ids.contains(id) ==> id < tris.len() && aabb_contains_tri(b, tris[id as int])
}

/// How many triangles the subtree rooted at slot `i` holds: a leaf's own
/// `count`, or the sum over the two children.  Total on any node array
/// (children always sit at later slots, and anything malformed counts as 0).
pub open spec fn subtree_count(nodes: Seq<BVHNode>, i: int) -> int
    decreases nodes.len() - i,
{
    if i < 0 || i >= nodes.len() {
        0
    } else if nodes[i].count > 0 {
        nodes[i].count as int
    } else {
        let l = nodes[i].left_first as int;
        if l <= i || l + 1 >= nodes.len() {
            0
        } else {
            subtree_count(nodes, l) + subtree_count(nodes, l + 1)
        }
    }
}

/// The end of the slot block owned by the subtree rooted at slot `i`, where
/// `base` is where that block starts: a leaf owns no slots, an internal node
/// owns its two children and their blocks, laid out left block first.
pub open spec fn subtree_end(nodes: Seq<BVHNode>, i: int, base: int) -> int
    decreases nodes.len() - i,
{
    if i < 0 || i >= nodes.len() {
        base
    } else if nodes[i].count > 0 {
        base
    } else {
        let l = nodes[i].left_first as int;
        if l <= i || l + 1 >= nodes.len() {
            base
        } else {
            subtree_end(nodes, l + 1, subtree_end(nodes, l, l + 2))
        }
    }
}

/// Well-formedness of the subtree rooted at slot `i`, owning the index range
/// `[start, start+count)` and the slot range `[lo, hi)` (its descendants are
/// exactly the slots of `[lo, hi)`, with the two children first).
///
/// A leaf owns no further slots (`lo == hi`), holds at most `LEAF_THRESHOLD`
/// triangles, and its box contains each of them.  An internal node's children
/// sit at `lo` and `lo+1`; they split the index range into two adjacent,
/// non-empty parts, and the parent box contains both child boxes.
pub open spec fn wf_subtree(
    nodes: Seq<BVHNode>,
    ids: Seq<u32>,
    tris: Seq<Triangle>,
    i: int,
    start: int,
    count: int,
    lo: int,
    hi: int,
) -> bool
    decreases count, 1int,
{
    &&& 0 < count
    &&& 0 <= start
    &&& start + count <= ids.len()
    &&& 0 <= i < nodes.len()
    &&& i < lo
    &&& 2 <= lo <= hi <= nodes.len()
    &&& aabb_ok(node_aabb(nodes[i]))
    &&& if nodes[i].count > 0 {
        &&& nodes[i].count == count
        &&& count <= LEAF_THRESHOLD
        &&& nodes[i].left_first == start
        &&& lo == hi
        &&& forall|j: int|
            start <= j < start + count ==> (#[trigger] ids[j]) < tris.len()
                && aabb_contains_tri(node_aabb(nodes[i]), tris[ids[j] as int])
    } else {
        &&& nodes[i].count == 0
        &&& nodes[i].left_first == lo
        &&& lo + 2 <= hi
        &&& wf_split(
            nodes, ids, tris, i, start, count, lo, hi,
            subtree_count(nodes, lo),
            subtree_end(nodes, lo, lo + 2),
        )
    }
}

/// One way to split an internal node: the left child carries `c1` triangles
/// and the slots `[lo+2, mid)`, the right child the rest.
pub open spec fn wf_split(
    nodes: Seq<BVHNode>,
    ids: Seq<u32>,
    tris: Seq<Triangle>,
    i: int,
    start: int,
    count: int,
    lo: int,
    hi: int,
    c1: int,
    mid: int,
) -> bool
    decreases count, 0int,
{
    &&& 0 < c1 < count
    &&& lo + 2 <= mid <= hi
    &&& wf_subtree(nodes, ids, tris, lo, start, c1, lo + 2, mid)
    &&& wf_subtree(nodes, ids, tris, lo + 1, start + c1, count - c1, mid, hi)
    &&& aabb_contains_aabb(node_aabb(nodes[i]), node_aabb(nodes[lo]))
    &&& aabb_contains_aabb(node_aabb(nodes[i]), node_aabb(nodes[lo + 1]))
}

/// The geometry store, the index permutation, the node pool, and the
/// build-time centroid scratch array.
pub struct Bvh {
    pub triangles: Vec<Triangle>,
    pub indices: Vec<u32>,
    pub bvh_nodes: Vec<BVHNode>,
    pub centroids: Vec<Point>,
}

impl Bvh {
    /// Number of triangles.
    pub open spec fn n(self) -> int {
        self.triangles@.len() as int
    }

    /// The standing shape of the structure: bounded triangles, an index entry
    /// per triangle, every stored id valid.
    pub open spec fn inv_base(self) -> bool {
        &&& tris_ok(self.triangles@)
        &&& self.indices@.len() == self.n()
        &&& 1 <= self.n() <= MAX_TRIS
        &&& ids_ok(self.indices@, self.n())
    }

    /// The centroid scratch array mirrors the triangle array.
    pub open spec fn inv_centroids(self) -> bool {
        &&& self.centroids@.len() == self.n()
        &&& forall|i: int|
            0 <= i < self.n() ==> self.centroids@[i] == spec_centroid(#[trigger] self.triangles@[i])
    }

    /// A finished build: the node pool holds a well-formed tree over the
    /// whole index range, rooted at slot 0.
    pub open spec fn built(self) -> bool {
        &&& self.inv_base()
        &&& self.indices@.to_multiset() == ident_seq(self.n()).to_multiset()
        &&& 2 <= self.bvh_nodes@.len()
        &&& wf_subtree(
            self.bvh_nodes@,
            self.indices@,
            self.triangles@,
            0,
            0,
            self.n(),
            2,
            self.bvh_nodes@.len() as int,
        )
    }

    /// A structure ray queries accept: either built, or the empty scene
    /// (nothing loaded, no nodes), which reports no hit.
    pub open spec fn queryable(self) -> bool {
        self.bvh_nodes@.len() == 0 || self.built()
    }

    /// Create the structure around a triangle list: identity index
    /// permutation and a zeroed node pool of twice the triangle count.
    pub fn new(triangles: Vec<Triangle>) -> (r: Bvh)
        requires
            tris_ok(triangles@),
            triangles@.len() <= MAX_TRIS,
        ensures
            r.triangles == triangles,
            r.indices@ == ident_seq(triangles@.len() as int),
            r.bvh_nodes@ == Seq::new((2 * triangles@.len()) as nat, |i: int| zero_node()),
            r.centroids@.len() == 0,
    {
        let n = triangles.len();
        let mut indices: Vec<u32> = Vec::new();
        let mut i: usize = 0;
        while i < n
            invariant
                i <= n,
                n <= MAX_TRIS,
                indices@.len() == i,
                forall|j: int| 0 <= j < i ==> indices@[j] == j as u32,
            decreases n - i,
        {
            indices.push(i as u32);
            i = i + 1;
        }
        let mut bvh_nodes: Vec<BVHNode> = Vec::new();
        let mut k: usize = 0;
        while k < 2 * n
            invariant
                k <= 2 * n,
                n <= MAX_TRIS,
                bvh_nodes@.len() == k,
                forall|j: int| 0 <= j < k ==> bvh_nodes@[j] == zero_node(),
            decreases 2 * n - k,
        {
            bvh_nodes.push(BVHNode {
                minx: 0, miny: 0, minz: 0, maxx: 0, maxy: 0, maxz: 0, left_first: 0, count: 0,
            });
            k = k + 1;
        }
        proof {
            assert(indices@ =~= ident_seq(n as int));
            assert(bvh_nodes@ =~= Seq::new((2 * n) as nat, |i: int| zero_node()));
        }
        Bvh { triangles, indices, bvh_nodes, centroids: Vec::new() }
    }

    /// Swap two entries of the index permutation.
    fn swap_indices(&mut self, a: usize, b: usize)
        requires
            a < old(self).indices@.len(),
            b < old(self).indices@.len(),
        ensures
            final(self).indices@ == old(self).indices@
                .update(a as int, old(self).indices@[b as int])
                .update(b as int, old(self).indices@[a as int]),
            final(self).triangles == old(self).triangles,
            final(self).centroids == old(self).centroids,
            final(self).bvh_nodes == old(self).bvh_nodes,
    {
        let va = self.indices[a];
        let vb = self.indices[b];
        self.indices.set(a, vb);
        self.indices.set(b, va);
    }

    /// The min and max corner over a range of the index permutation: either
    /// of the referenced triangles' vertices, or (during partitioning) of the
    /// referenced centroids.
    pub fn calculate_bounds(&self, first: u32, amount: u32, centroids: bool) -> (r: Aabb)
        requires
            self.indices@.len() == self.triangles@.len(),
            self.indices@.len() <= MAX_TRIS,
            ids_ok(self.indices@, self.indices@.len() as int),
            centroids ==> self.centroids@.len() == self.triangles@.len(),
            first + amount <= self.indices@.len(),
        ensures
            !centroids ==> r == range_bounds(
                self.triangles@, self.indices@, first as int, amount as nat),
            centroids ==> r == range_cbounds(
                self.centroids@, self.indices@, first as int, amount as nat),
    {
        let mut max_point = Point::new(-COORD_LIMIT, -COORD_LIMIT, -COORD_LIMIT);
        let mut min_point = Point::new(COORD_LIMIT, COORD_LIMIT, COORD_LIMIT);
        let mut i: usize = first as usize;
        let stop: usize = first as usize + amount as usize;
        while i < stop
            invariant
                first as usize <= i <= stop,
                stop == first as usize + amount as usize,
                stop <= self.indices@.len(),
                self.indices@.len() == self.triangles@.len(),
                ids_ok(self.indices@, self.indices@.len() as int),
                centroids ==> self.centroids@.len() == self.triangles@.len(),
                ({
                    let b = Aabb {
                        minx: min_point.x, miny: min_point.y, minz: min_point.z,
                        maxx: max_point.x, maxy: max_point.y, maxz: max_point.z,
                    };
                    if centroids {
                        b == range_cbounds(
                            self.centroids@, self.indices@, first as int, (i - first as usize) as nat)
                    } else {
                        b == range_bounds(
                            self.triangles@, self.indices@, first as int, (i - first as usize) as nat)
                    }
                }),
            decreases stop - i,
        {
            let id = self.indices[i] as usize;
            if centroids {
                let vertex = self.centroids[id];
                max_point = max_point.max(vertex);
                min_point = min_point.min(vertex);
            } else {
                let t = self.triangles[id];
                max_point = max_point.max(t.v0);
                min_point = min_point.min(t.v0);
                max_point = max_point.max(t.v1);
                min_point = min_point.min(t.v1);
                max_point = max_point.max(t.v2);
                min_point = min_point.min(t.v2);
            }
            i = i + 1;
        }
        Aabb {
            minx: min_point.x, miny: min_point.y, minz: min_point.z,
            maxx: max_point.x, maxy: max_point.y, maxz: max_point.z,
        }
    }

    /// Copy a box into a node, leaving `left_first` and `count` alone.
    fn set_bound(&mut self, bvh_index: usize, aabb: &Aabb)
        requires
            bvh_index < old(self).bvh_nodes@.len(),
        ensures
            final(self).bvh_nodes@ == old(self).bvh_nodes@.update(
                bvh_index as int,
                BVHNode {
                    minx: aabb.minx, miny: aabb.miny, minz: aabb.minz,
                    maxx: aabb.maxx, maxy: aabb.maxy, maxz: aabb.maxz,
                    left_first: old(self).bvh_nodes@[bvh_index as int].left_first,
                    count: old(self).bvh_nodes@[bvh_index as int].count,
                },
            ),
            final(self).triangles == old(self).triangles,
            final(self).centroids == old(self).centroids,
            final(self).indices == old(self).indices,
    {
        let mut node = self.bvh_nodes[bvh_index];
        node.minx = aabb.minx;
        node.miny = aabb.miny;
        node.minz = aabb.minz;
        node.maxx = aabb.maxx;
        node.maxy = aabb.maxy;
        node.maxz = aabb.maxz;
        self.bvh_nodes.set(bvh_index, node);
    }

    /// Hoare-style two-pointer partition of `indices[start .. start+count]`:
    /// ids whose centroid coordinate on `axis` is below `pos` end up on the
    /// left of the returned pivot, ids at positions after the pivot are not
    /// below `pos`.  (The loop bound is strict, so the entry the two scan
    /// pointers meet on is left unclassified.)
    fn partition_shuffle(&mut self, axis: usize, pos: i64, start: u32, count: u32) -> (pivot: u32)
        requires
            axis < 3,
            1 <= count,
            start + count <= old(self).indices@.len(),
            old(self).indices@.len() == old(self).triangles@.len(),
            old(self).indices@.len() <= MAX_TRIS,
            old(self).centroids@.len() == old(self).triangles@.len(),
            ids_ok(old(self).indices@, old(self).indices@.len() as int),
        ensures
            start <= pivot < start + count,
            final(self).triangles == old(self).triangles,
            final(self).centroids == old(self).centroids,
            final(self).bvh_nodes == old(self).bvh_nodes,
            final(self).indices@.len() == old(self).indices@.len(),
            ids_ok(final(self).indices@, final(self).indices@.len() as int),
            forall|j: int|
                0 <= j < final(self).indices@.len() && !(start <= j < start + count)
                    ==> final(self).indices@[j] == old(self).indices@[j],
            range_mset(final(self).indices@, start as int, count as int)
                == range_mset(old(self).indices@, start as int, count as int),
            forall|j: int|
                start <= j < pivot ==> spec_component(
                    final(self).centroids@[#[trigger] final(self).indices@[j] as int],
                    axis as int) < pos,
            forall|j: int|
                pivot < j < start + count ==> spec_component(
                    final(self).centroids@[#[trigger] final(self).indices@[j] as int],
                    axis as int) >= pos,
    {
        let mut i: usize = start as usize;
        let mut end: usize = start as usize + count as usize - 1;
        while i < end
            invariant
                axis < 3,
                start as usize <= i <= end,
                end < start as usize + count as usize,
                start + count <= self.indices@.len(),
                self.indices@.len() == self.triangles@.len(),
                self.centroids@.len() == self.triangles@.len(),
                self.triangles == old(self).triangles,
                self.centroids == old(self).centroids,
                self.bvh_nodes == old(self).bvh_nodes,
                self.indices@.len() == old(self).indices@.len(),
                ids_ok(self.indices@, self.indices@.len() as int),
                forall|j: int|
                    0 <= j < self.indices@.len() && !(start <= j < start + count)
                        ==> self.indices@[j] == old(self).indices@[j],
                range_mset(self.indices@, start as int, count as int)
                    == range_mset(old(self).indices@, start as int, count as int),
                forall|j: int|
                    start <= j < i ==> spec_component(
                        self.centroids@[#[trigger] self.indices@[j] as int], axis as int) < pos,
                forall|j: int|
                    end < j < start + count ==> spec_component(
                        self.centroids@[#[trigger] self.indices@[j] as int], axis as int) >= pos,
            decreases end - i,
        {
            let id = self.indices[i] as usize;
            if self.centroids[id].component(axis) < pos {
                i = i + 1;
            } else {
                proof {
                    lemma_swap_in_range(self.indices@, start as int, count as int, i as int, end as int);
                }
                self.swap_indices(i, end);
                end = end - 1;
            }
        }
        i as u32
    }

    /// The full surface area of a box given by its corner coordinates, the
    /// quantity the SAH cost model weighs triangle counts with.
    pub fn get_area(maxx: i64, maxy: i64, maxz: i64, minx: i64, miny: i64, minz: i64) -> (r: i128)
        requires
            crate::geom::coord_ok(minx),
            crate::geom::coord_ok(miny),
            crate::geom::coord_ok(minz),
            crate::geom::coord_ok(maxx),
            crate::geom::coord_ok(maxy),
            crate::geom::coord_ok(maxz),
        ensures
            r as int == spec_area(Aabb { minx, miny, minz, maxx, maxy, maxz }),
            -(24 * COORD_LIMIT * COORD_LIMIT) <= r <= 24 * COORD_LIMIT * COORD_LIMIT,
    {
        let dx = (maxx - minx) as i128;
        let dy = (maxy - miny) as i128;
        let dz = (maxz - minz) as i128;
        proof {
            lemma_mul_bound(dx as int, dy as int, 2 * COORD_LIMIT, 2 * COORD_LIMIT);
            lemma_mul_bound(dx as int, dz as int, 2 * COORD_LIMIT, 2 * COORD_LIMIT);
            lemma_mul_bound(dy as int, dz as int, 2 * COORD_LIMIT, 2 * COORD_LIMIT);
        }
        (dx * dy + dx * dz + dy * dz) * 2
    }

    /// The candidate split position for bin `num` of `den`: linear
    /// interpolation between `a` and `b`, in integer arithmetic.
    fn lerp(a: i64, b: i64, num: i64, den: i64) -> (r: i64)
        requires
            crate::geom::coord_ok(a),
            crate::geom::coord_ok(b),
            a <= b,
            0 <= num <= den,
            0 < den <= 8,
        ensures
            a <= r <= b,
            r as int == a + (b - a) as int * num as int / den as int,
    {
        proof {
            lemma_mul_bound((b - a) as int, num as int, 2 * COORD_LIMIT, 8);
        }
        let p = (b - a) * num;
        proof {
            assert(0 <= (b - a) * num <= (b - a) * den) by (nonlinear_arith)
                requires
                    0 <= b - a,
                    0 <= num <= den;
            vstd::arithmetic::div_mod::lemma_div_pos_is_pos((b - a) as int * num as int, den as int);
            vstd::arithmetic::div_mod::lemma_div_is_ordered(
                (b - a) as int * num as int,
                (b - a) as int * den as int,
                den as int,
            );
            vstd::arithmetic::div_mod::lemma_div_multiples_vanish((b - a) as int, den as int);
            assert((b - a) as int * den as int == den as int * (b - a) as int)
                by (nonlinear_arith);
        }
        a + p / den
    }

    /// Binned SAH split of `indices[start .. start+count]`.  Every candidate
    /// (axis, bin) pair is tried by physically reordering the range and
    /// costing both sides; the first candidate reaching the minimal cost
    /// wins, the range is reordered once more for the winner, and its pivot
    /// is returned.  When the winning pivot leaves one side empty (all
    /// centroids on one side of every candidate plane), the range is split at
    /// its middle instead, so that both sides always make progress.
    fn partition(&mut self, start: u32, count: u32) -> (pivot: u32)
        requires
            old(self).inv_base(),
            old(self).inv_centroids(),
            2 <= count,
            start + count <= old(self).n(),
        ensures
            start < pivot < start + count,
            final(self).triangles == old(self).triangles,
            final(self).centroids == old(self).centroids,
            final(self).bvh_nodes == old(self).bvh_nodes,
            final(self).indices@.len() == old(self).indices@.len(),
            ids_ok(final(self).indices@, final(self).n()),
            forall|j: int|
                0 <= j < final(self).indices@.len() && !(start <= j < start + count)
                    ==> final(self).indices@[j] == old(self).indices@[j],
            range_mset(final(self).indices@, start as int, count as int)
                == range_mset(old(self).indices@, start as int, count as int),
    {
        proof {
            assert forall|j: int| 0 <= j < self.indices@.len()
                implies crate::geom::point_ok(
                    self.centroids@[#[trigger] self.indices@[j] as int]) by {
                lemma_centroid_ok(self.triangles@[self.indices@[j] as int]);
            }
            lemma_range_cbounds_ok(self.centroids@, self.indices@, start as int, count as nat);
        }
        let aabb = self.calculate_bounds(start, count, true);

        let mut optimal_axis: usize = 0;
        let mut optimal_pos: i64 = 0;
        let mut optimal_pivot: u32 = start;
        let mut optimal_cost: i128 = i128::MAX;

        let mut axis: usize = 0;
        while axis < 3
            invariant
                axis <= 3,
                2 <= count,
                start + count <= self.n(),
                self.inv_base(),
                self.inv_centroids(),
                self.triangles == old(self).triangles,
                self.centroids == old(self).centroids,
                self.bvh_nodes == old(self).bvh_nodes,
                self.indices@.len() == old(self).indices@.len(),
                forall|j: int|
                    0 <= j < self.indices@.len() && !(start <= j < start + count)
                        ==> self.indices@[j] == old(self).indices@[j],
                range_mset(self.indices@, start as int, count as int)
                    == range_mset(old(self).indices@, start as int, count as int),
                start <= optimal_pivot < start + count,
                optimal_axis < 3,
                aabb_ok(aabb),
                aabb.minx <= aabb.maxx,
                aabb.miny <= aabb.maxy,
                aabb.minz <= aabb.maxz,
            decreases 3 - axis,
        {
            let mut b: u32 = 1;
            while b < BINS
                invariant
                    1 <= b <= BINS,
                    axis < 3,
                    2 <= count,
                    start + count <= self.n(),
                    self.inv_base(),
                    self.inv_centroids(),
                    self.triangles == old(self).triangles,
                    self.centroids == old(self).centroids,
                    self.bvh_nodes == old(self).bvh_nodes,
                    self.indices@.len() == old(self).indices@.len(),
                    forall|j: int|
                        0 <= j < self.indices@.len() && !(start <= j < start + count)
                            ==> self.indices@[j] == old(self).indices@[j],
                    range_mset(self.indices@, start as int, count as int)
                        == range_mset(old(self).indices@, start as int, count as int),
                    start <= optimal_pivot < start + count,
                    optimal_axis < 3,
                    aabb_ok(aabb),
                    aabb.minx <= aabb.maxx,
                    aabb.miny <= aabb.maxy,
                    aabb.minz <= aabb.maxz,
                decreases BINS - b,
            {
                let pos = if axis == 0 {
                    Self::lerp(aabb.minx, aabb.maxx, b as i64, BINS as i64)
                } else if axis == 1 {
                    Self::lerp(aabb.miny, aabb.maxy, b as i64, BINS as i64)
                } else {
                    Self::lerp(aabb.minz, aabb.maxz, b as i64, BINS as i64)
                };
                let pivot = self.partition_shuffle(axis, pos, start, count);

                let bb1_count = pivot - start;
                let bb2_count = count - bb1_count;

                let bb1 = self.calculate_bounds(start, bb1_count, false);
                let bb2 = self.calculate_bounds(pivot, bb2_count, false);
                proof {
                    assert forall|j: int| 0 <= j < self.indices@.len()
                        implies tri_ok(
                            self.triangles@[#[trigger] self.indices@[j] as int]) by {}
                    lemma_range_bounds_ok(
                        self.triangles@, self.indices@, start as int, bb1_count as nat);
                    lemma_range_bounds_ok(
                        self.triangles@, self.indices@, pivot as int, bb2_count as nat);
                }
                let half_area1 =
                    Self::get_area(bb1.maxx, bb1.maxy, bb1.maxz, bb1.minx, bb1.miny, bb1.minz);
                let half_area2 =
                    Self::get_area(bb2.maxx, bb2.maxy, bb2.maxz, bb2.minx, bb2.miny, bb2.minz);
                proof {
                    lemma_mul_bound(
                        half_area1 as int, bb1_count as int,
                        24 * COORD_LIMIT * COORD_LIMIT, 0x1_0000_0000);
                    lemma_mul_bound(
                        half_area2 as int, bb2_count as int,
                        24 * COORD_LIMIT * COORD_LIMIT, 0x1_0000_0000);
                }
                let cost = half_area1 * (bb1_count as i128) + half_area2 * (bb2_count as i128);
                if cost < optimal_cost {
                    optimal_axis = axis;
                    optimal_pos = pos;
                    optimal_cost = cost;
                    optimal_pivot = pivot;
                }
                b = b + 1;
            }
            axis = axis + 1;
        }
        self.partition_shuffle(optimal_axis, optimal_pos, start, count);
        if optimal_pivot <= start || optimal_pivot >= start + count {
            proof {
                vstd::arithmetic::div_mod::lemma_div_pos_is_pos(count as int, 2);
                vstd::arithmetic::div_mod::lemma_div_is_ordered(2, count as int, 2);
                vstd::arithmetic::div_mod::lemma_div_is_strictly_smaller(count as int, 2);
            }
            start + count / 2
        } else {
            optimal_pivot
        }
    }

    /// Split the node at `current_bvh_index` (owning `indices[start ..]`, with
    /// its box already set by the caller) until every leaf holds at most
    /// `LEAF_THRESHOLD` triangles.  `pool_index` is the first free node slot;
    /// a split claims two adjacent slots for the children, so a subtree of
    /// `count` triangles claims at most `2 * count - 2` slots in all.
    fn subdivide(&mut self, current_bvh_index: usize, start: u32, pool_index: &mut u32)
        requires
            old(self).inv_base(),
            old(self).inv_centroids(),
            old(self).bvh_nodes@.len() == 2 * old(self).n(),
            current_bvh_index < *old(pool_index),
            2 <= *old(pool_index),
            ({
                let count = old(self).bvh_nodes@[current_bvh_index as int].count as int;
                &&& 0 < count
                &&& start + count <= old(self).n()
                &&& *old(pool_index) + 2 * count - 2 <= 2 * old(self).n()
                &&& aabb_ok(node_aabb(old(self).bvh_nodes@[current_bvh_index as int]))
                &&& covers_ids(
                    node_aabb(old(self).bvh_nodes@[current_bvh_index as int]),
                    old(self).triangles@,
                    range_mset(old(self).indices@, start as int, count),
                )
            }),
        ensures
            final(self).triangles == old(self).triangles,
            final(self).centroids == old(self).centroids,
            final(self).bvh_nodes@.len() == old(self).bvh_nodes@.len(),
            final(self).indices@.len() == old(self).indices@.len(),
            ids_ok(final(self).indices@, final(self).n()),
            *old(pool_index) <= *final(pool_index),
            ({
                let count = old(self).bvh_nodes@[current_bvh_index as int].count as int;
                &&& *final(pool_index) <= *old(pool_index) + 2 * count - 2
                &&& forall|j: int|
                    0 <= j < final(self).indices@.len() && !(start <= j < start + count)
                        ==> final(self).indices@[j] == old(self).indices@[j]
                &&& range_mset(final(self).indices@, start as int, count)
                    == range_mset(old(self).indices@, start as int, count)
                &&& forall|j: int|
                    0 <= j < final(self).bvh_nodes@.len() && j != current_bvh_index
                        && !(*old(pool_index) <= j < *final(pool_index))
                        ==> final(self).bvh_nodes@[j] == old(self).bvh_nodes@[j]
                &&& node_aabb(final(self).bvh_nodes@[current_bvh_index as int])
                    == node_aabb(old(self).bvh_nodes@[current_bvh_index as int])
                &&& wf_subtree(
                    final(self).bvh_nodes@,
                    final(self).indices@,
                    final(self).triangles@,
                    current_bvh_index as int,
                    start as int,
                    count,
                    *old(pool_index) as int,
                    *final(pool_index) as int,
                )
            }),
        decreases old(self).bvh_nodes@[current_bvh_index as int].count,
    {
        let count_i32 = self.bvh_nodes[current_bvh_index].count;
        let ghost count = count_i32 as int;
        if count_i32 <= LEAF_THRESHOLD {
            let mut node = self.bvh_nodes[current_bvh_index];
            node.left_first = start as i32;
            self.bvh_nodes.set(current_bvh_index, node);
            proof {
                lemma_pointwise_from_covers(
                    node_aabb(self.bvh_nodes@[current_bvh_index as int]),
                    self.triangles@,
                    self.indices@,
                    start as int,
                    count,
                );
            }
            return;
        }

        let index = *pool_index as usize;
        *pool_index = *pool_index + 2;
        let mut node = self.bvh_nodes[current_bvh_index];
        node.left_first = index as i32;
        self.bvh_nodes.set(current_bvh_index, node);

        let count_u32 = count_i32 as u32;
        let pivot = self.partition(start, count_u32);
        let ghost box_cur = node_aabb(self.bvh_nodes@[current_bvh_index as int]);
        proof {
            // The box of the current node still covers its (reshuffled)
            // range, so it covers both halves.
            lemma_pointwise_from_covers(
                box_cur, self.triangles@, self.indices@, start as int, count);
        }

        let left_count = pivot - start;
        let mut lnode = self.bvh_nodes[index];
        lnode.count = left_count as i32;
        self.bvh_nodes.set(index, lnode);
        let bounds = self.calculate_bounds(start, left_count, false);
        self.set_bound(index, &bounds);

        let right_count = count_u32 - left_count;
        let mut rnode = self.bvh_nodes[index + 1];
        rnode.count = right_count as i32;
        self.bvh_nodes.set(index + 1, rnode);
        let bounds2 = self.calculate_bounds(pivot, right_count, false);
        self.set_bound(index + 1, &bounds2);

        let ghost s2 = *self;
        proof {
            assert forall|j: int| 0 <= j < self.indices@.len()
                implies tri_ok(self.triangles@[#[trigger] self.indices@[j] as int]) by {}
            lemma_range_bounds_ok(
                self.triangles@, self.indices@, start as int, left_count as nat);
            lemma_range_bounds_ok(
                self.triangles@, self.indices@, pivot as int, right_count as nat);
            lemma_range_bounds_contains(
                self.triangles@, self.indices@, start as int, left_count as nat);
            lemma_range_bounds_contains(
                self.triangles@, self.indices@, pivot as int, right_count as nat);
            lemma_covers_from_pointwise(
                bounds, self.triangles@, self.indices@, start as int, left_count as int);
            lemma_range_bounds_minimal(
                box_cur, self.triangles@, self.indices@, start as int, left_count as nat);
            lemma_range_bounds_minimal(
                box_cur, self.triangles@, self.indices@, pivot as int, right_count as nat);
        }
        self.subdivide(index, start, pool_index);
        let ghost s3 = *self;
        let ghost pl = *pool_index as int;
        proof {
            // The right child's range and node were untouched by the left
            // recursion; its box still covers its triangles.
            assert forall|j: int| pivot <= j < start + count
                implies (#[trigger] self.indices@[j]) < self.triangles@.len()
                    && aabb_contains_tri(bounds2, self.triangles@[self.indices@[j] as int]) by {
                assert(self.indices@[j] == s2.indices@[j]);
            }
            lemma_covers_from_pointwise(
                bounds2, self.triangles@, self.indices@, pivot as int, right_count as int);
            assert(self.bvh_nodes@[index + 1] == s2.bvh_nodes@[index + 1]);
        }
        self.subdivide(index + 1, pivot, pool_index);
        let ghost s4 = *self;
        let ghost pr = *pool_index as int;

        let mut cnode = self.bvh_nodes[current_bvh_index];
        cnode.count = 0;
        self.bvh_nodes.set(current_bvh_index, cnode);

        proof {
            let nf = self.bvh_nodes@;
            let idf = self.indices@;
            let tris = self.triangles@;
            // Carry the left subtree across the right recursion and the
            // final write to the current node.
            assert forall|j: int| index + 2 <= j < pl implies nf[j] == s3.bvh_nodes@[j] by {}
            assert(nf[index as int] == s3.bvh_nodes@[index as int]);
            assert forall|j: int| start <= j < start + left_count implies idf[j] == s3.indices@[j]
                by {}
            lemma_wf_frame(
                s3.bvh_nodes@, nf, s3.indices@, idf, tris,
                index as int, start as int, left_count as int, index + 2, pl,
            );
            lemma_wf_frame(
                s4.bvh_nodes@, nf, s4.indices@, idf, tris,
                index + 1, pivot as int, right_count as int, pl, pr,
            );
            lemma_wf_determines(
                nf, idf, tris, index as int, start as int, left_count as int, index + 2, pl);
            // The multiset of the whole range survived both recursions.
            lemma_range_mset_split(
                s2.indices@, s3.indices@, start as int, count, start as int, pivot as int);
            lemma_range_mset_split(
                s3.indices@, idf, start as int, count, pivot as int, (start + count_u32) as int);
            // Assemble the split.
            assert(node_aabb(nf[current_bvh_index as int]) == box_cur);
            assert(node_aabb(nf[index as int]) == bounds);
            assert(node_aabb(nf[index + 1]) == bounds2);
            assert(wf_split(
                nf, idf, tris, current_bvh_index as int, start as int, count,
                index as int, pr, left_count as int, pl,
            ));
            assert(subtree_count(nf, index as int) == left_count as int);
            assert(subtree_end(nf, index as int, index + 2) == pl);
            assert(wf_subtree(
                nf, idf, tris, current_bvh_index as int, start as int, count, index as int, pr));
        }
    }

    /// Build the tree: compute the centroid cache, seed the root with the
    /// whole index range and its bounds, subdivide recursively, then discard
    /// the scratch centroids and truncate the pool to the slots in use.
    ///
    /// Afterwards the index array is still a permutation of `0..n`, the pool
    /// holds at most `2 * n` nodes, and the tree is well-formed: every leaf
    /// holds at most `LEAF_THRESHOLD` triangles inside its box, and every
    /// internal node's box contains its two children's boxes, which split the
    /// node's index range exactly.
    pub fn build_bvh(&mut self)
        requires
            old(self).inv_base(),
            old(self).indices@ == ident_seq(old(self).n()),
            old(self).bvh_nodes@.len() == 2 * old(self).n(),
        ensures
            final(self).triangles == old(self).triangles,
            final(self).centroids@.len() == 0,
            final(self).indices@.len() == old(self).n(),
            final(self).indices@.to_multiset() == ident_seq(old(self).n()).to_multiset(),
            2 <= final(self).bvh_nodes@.len() <= 2 * old(self).n(),
            final(self).built(),
    {
        let n = self.triangles.len();
        let mut cents: Vec<Point> = Vec::new();
        let mut i: usize = 0;
        while i < n
            invariant
                i <= n,
                n == self.triangles@.len(),
                tris_ok(self.triangles@),
                cents@.len() == i,
                forall|k: int| 0 <= k < i ==> cents@[k] == spec_centroid(#[trigger] self.triangles@[k]),
                self == old(self),
            decreases n - i,
        {
            let c = centroid(&self.triangles[i]);
            cents.push(c);
            i = i + 1;
        }
        self.centroids = cents;

        let mut root = self.bvh_nodes[0];
        root.left_first = 0;
        root.count = n as i32;
        self.bvh_nodes.set(0, root);

        let aabb = self.calculate_bounds(0, n as u32, false);
        self.set_bound(0, &aabb);

        let mut new_node_index: u32 = 2;
        proof {
            assert forall|j: int| 0 <= j < self.indices@.len()
                implies tri_ok(self.triangles@[#[trigger] self.indices@[j] as int]) by {}
            lemma_range_bounds_ok(self.triangles@, self.indices@, 0, n as nat);
            lemma_range_bounds_contains(self.triangles@, self.indices@, 0, n as nat);
            lemma_covers_from_pointwise(
                node_aabb(self.bvh_nodes@[0]), self.triangles@, self.indices@, 0, n as int);
        }
        self.subdivide(0, 0, &mut new_node_index);
        let ghost s_sub = *self;

        self.centroids = Vec::new();
        let keep = new_node_index as usize;
        self.bvh_nodes.truncate(keep);
        proof {
            let nf = self.bvh_nodes@;
            assert forall|j: int| 2 <= j < keep implies nf[j] == s_sub.bvh_nodes@[j] by {}
            lemma_wf_frame(
                s_sub.bvh_nodes@, nf, s_sub.indices@, self.indices@, self.triangles@,
                0, 0, n as int, 2, keep as int,
            );
            // The whole index array is its own range, so the preserved range
            // multiset is the multiset of the identity permutation.
            assert(self.indices@.subrange(0, n as int) =~= self.indices@);
            assert(ident_seq(n as int).subrange(0, n as int) =~= ident_seq(n as int));
        }
    }
}

/// The summed surface area of the first `k` nodes of a pool.
pub open spec fn pool_area(nodes: Seq<BVHNode>, k: int) -> int
    decreases k,
{
    if k <= 0 {
        0
    } else {
        pool_area(nodes, k - 1) + spec_area(node_aabb(nodes[k - 1]))
    }
}

/// The depth of the subtree at slot `i`: zero at a leaf, one more than the
/// deeper child below an internal node.  Total on any node array (anything
/// malformed counts as a leaf).
pub open spec fn subtree_depth(nodes: Seq<BVHNode>, i: int) -> int
    decreases nodes.len() - i,
{
    if i < 0 || i >= nodes.len() {
        0
    } else if nodes[i].count > 0 {
        0
    } else {
        let l = nodes[i].left_first as int;
        if l <= i || l + 1 >= nodes.len() {
            0
        } else {
            let a = subtree_depth(nodes, l);
            let b = subtree_depth(nodes, l + 1);
            1 + if a > b {
                a
            } else {
                b
            }
        }
    }
}

/// How many internal nodes the subtree at slot `i` holds.
pub open spec fn subtree_internal(nodes: Seq<BVHNode>, i: int) -> int
    decreases nodes.len() - i,
{
    if i < 0 || i >= nodes.len() {
        0
    } else if nodes[i].count > 0 {
        0
    } else {
        let l = nodes[i].left_first as int;
        if l <= i || l + 1 >= nodes.len() {
            0
        } else {
            1 + subtree_internal(nodes, l) + subtree_internal(nodes, l + 1)
        }
    }
}

/// In a well-formed subtree both statistics are bounded by the triangle
/// count: the depth strictly (each level splits off at least one triangle),
/// and the internal-node count strictly as well.
pub proof fn lemma_wf_stats(
    nodes: Seq<BVHNode>,
    ids: Seq<u32>,
    tris: Seq<Triangle>,
    i: int,
    start: int,
    count: int,
    lo: int,
    hi: int,
)
    requires
        wf_subtree(nodes, ids, tris, i, start, count, lo, hi),
    ensures
        0 <= subtree_depth(nodes, i) < count,
        0 <= subtree_internal(nodes, i) < count,
    decreases count,
{
    if nodes[i].count > 0 {
    } else {
        let c1 = subtree_count(nodes, lo);
        let mid = subtree_end(nodes, lo, lo + 2);
        assert(wf_split(nodes, ids, tris, i, start, count, lo, hi, c1, mid));
        lemma_wf_stats(nodes, ids, tris, lo, start, c1, lo + 2, mid);
        lemma_wf_stats(nodes, ids, tris, lo + 1, start + c1, count - c1, mid, hi);
    }
}

impl Bvh {
    /// The summed surface area over the whole node pool, a cheap fingerprint
    /// of the finished tree (the unused sibling slot of the root is zeroed
    /// and contributes nothing).
    pub fn total_area(&self) -> (r: i128)
        requires
            self.built(),
            aabb_ok(node_aabb(self.bvh_nodes@[1])),
        ensures
            r as int == pool_area(self.bvh_nodes@, self.bvh_nodes@.len() as int),
    {
        proof {
            crate::laws::lemma_leaf_size_law(
                self.bvh_nodes@, self.indices@, self.triangles@,
                0, 0, self.n(), 2, self.bvh_nodes@.len() as int,
            );
        }
        let mut area: i128 = 0;
        let mut k: usize = 0;
        let len = self.bvh_nodes.len();
        while k < len
            invariant
                k <= len,
                len == self.bvh_nodes@.len(),
                forall|j: int|
                    0 <= j < len ==> aabb_ok(node_aabb(#[trigger] self.bvh_nodes@[j])),
                area as int == pool_area(self.bvh_nodes@, k as int),
                -(k as int * 1649267441664) <= area <= k as int * 1649267441664,
            decreases len - k,
        {
            let node = &self.bvh_nodes[k];
            let a = Self::get_area(node.maxx, node.maxy, node.maxz, node.minx, node.miny, node.minz);
            area = area + a;
            k = k + 1;
        }
        area
    }

    /// The depth of the tree, added to `depth`: how many levels of children
    /// a query can descend through from the root (slot 0, the only place a
    /// walk of the statistics starts).
    pub fn get_max_depth(&self, node_id: u32, depth: u32) -> (r: u32)
        requires
            self.built(),
            node_id == 0,
            depth + self.n() <= u32::MAX,
        ensures
            r as int == depth + subtree_depth(self.bvh_nodes@, 0),
    {
        proof {
            lemma_wf_stats(
                self.bvh_nodes@, self.indices@, self.triangles@,
                0, 0, self.n(), 2, self.bvh_nodes@.len() as int,
            );
        }
        self.depth_below(
            0, depth,
            Ghost((0int, self.n(), 2int, self.bvh_nodes@.len() as int)),
        )
    }

    /// How many internal nodes the tree holds, counted from the root
    /// (slot 0).
    pub fn total_internal_nodes(&self, node_id: u32) -> (r: u32)
        requires
            self.built(),
            node_id == 0,
        ensures
            r as int == subtree_internal(self.bvh_nodes@, 0),
    {
        proof {
            lemma_wf_stats(
                self.bvh_nodes@, self.indices@, self.triangles@,
                0, 0, self.n(), 2, self.bvh_nodes@.len() as int,
            );
        }
        self.internal_below(
            0,
            Ghost((0int, self.n(), 2int, self.bvh_nodes@.len() as int)),
        )
    }

    /// Walk one subtree for its depth.
    fn depth_below(&self, i: u32, depth: u32, rng: Ghost<(int, int, int, int)>) -> (r: u32)
        requires
            self.inv_base(),
            wf_subtree(
                self.bvh_nodes@, self.indices@, self.triangles@,
                i as int, rng@.0, rng@.1, rng@.2, rng@.3,
            ),
            depth + subtree_depth(self.bvh_nodes@, i as int) <= u32::MAX,
        ensures
            r as int == depth + subtree_depth(self.bvh_nodes@, i as int),
        decreases rng@.1,
    {
        let node = &self.bvh_nodes[i as usize];
        if node.count > 0 {
            return depth;
        }
        let ghost c1 = subtree_count(self.bvh_nodes@, rng@.2);
        let ghost mid = subtree_end(self.bvh_nodes@, rng@.2, rng@.2 + 2);
        proof {
            assert(wf_split(
                self.bvh_nodes@, self.indices@, self.triangles@,
                i as int, rng@.0, rng@.1, rng@.2, rng@.3, c1, mid,
            ));
            lemma_wf_stats(
                self.bvh_nodes@, self.indices@, self.triangles@,
                rng@.2, rng@.0, c1, rng@.2 + 2, mid,
            );
            lemma_wf_stats(
                self.bvh_nodes@, self.indices@, self.triangles@,
                rng@.2 + 1, rng@.0 + c1, rng@.1 - c1, mid, rng@.3,
            );
        }
        let l = node.left_first as u32;
        let d1 = self.depth_below(l, depth + 1, Ghost((rng@.0, c1, rng@.2 + 2, mid)));
        let d2 = self.depth_below(
            l + 1, depth + 1, Ghost((rng@.0 + c1, rng@.1 - c1, mid, rng@.3)));
        if d1 > d2 {
            d1
        } else {
            d2
        }
    }

    /// Walk one subtree for its internal-node count.
    fn internal_below(&self, i: u32, rng: Ghost<(int, int, int, int)>) -> (r: u32)
        requires
            self.inv_base(),
            wf_subtree(
                self.bvh_nodes@, self.indices@, self.triangles@,
                i as int, rng@.0, rng@.1, rng@.2, rng@.3,
            ),
        ensures
            r as int == subtree_internal(self.bvh_nodes@, i as int),
        decreases rng@.1,
    {
        let node = &self.bvh_nodes[i as usize];
        if node.count > 0 {
            return 0;
        }
        let ghost c1 = subtree_count(self.bvh_nodes@, rng@.2);
        let ghost mid = subtree_end(self.bvh_nodes@, rng@.2, rng@.2 + 2);
        proof {
            assert(wf_split(
                self.bvh_nodes@, self.indices@, self.triangles@,
                i as int, rng@.0, rng@.1, rng@.2, rng@.3, c1, mid,
            ));
            lemma_wf_stats(
                self.bvh_nodes@, self.indices@, self.triangles@,
                rng@.2, rng@.0, c1, rng@.2 + 2, mid,
            );
            lemma_wf_stats(
                self.bvh_nodes@, self.indices@, self.triangles@,
                rng@.2 + 1, rng@.0 + c1, rng@.1 - c1, mid, rng@.3,
            );
        }
        let l = node.left_first as u32;
        let n1 = self.internal_below(l, Ghost((rng@.0, c1, rng@.2 + 2, mid)));
        let n2 = self.internal_below(l + 1, Ghost((rng@.0 + c1, rng@.1 - c1, mid, rng@.3)));
        1 + n1 + n2
    }
}

/// Pointwise containment over a range gives containment over its multiset.
proof fn lemma_covers_from_pointwise(
    b: Aabb, tris: Seq<Triangle>, ids: Seq<u32>, start: int, count: int,
)
    requires
        0 <= start,
        0 <= count,
        start + count <= ids.len(),
        forall|j: int|
            start <= j < start + count ==> (#[trigger] ids[j]) < tris.len()
                && aabb_contains_tri(b, tris[ids[j] as int]),
    ensures
        covers_ids(b, tris, range_mset(ids, start, count)),
{
    broadcast use vstd::multiset::group_multiset_axioms;
    let r = ids.subrange(start, start + count);
    r.to_multiset_ensures();
    assert forall|id: u32| #[trigger] r.to_multiset().contains(id)
        implies id < tris.len() && aabb_contains_tri(b, tris[id as int]) by {
        assert(r.contains(id));
        let k = choose|k: int| 0 <= k < r.len() && r[k] == id;
        assert(ids[start + k] == id);
    }
}

/// Containment over a range's multiset gives pointwise containment.
proof fn lemma_pointwise_from_covers(
    b: Aabb, tris: Seq<Triangle>, ids: Seq<u32>, start: int, count: int,
)
    requires
        0 <= start,
        0 <= count,
        start + count <= ids.len(),
        covers_ids(b, tris, range_mset(ids, start, count)),
    ensures
        forall|j: int|
            start <= j < start + count ==> (#[trigger] ids[j]) < tris.len()
                && aabb_contains_tri(b, tris[ids[j] as int]),
{
    broadcast use vstd::multiset::group_multiset_axioms;
    let r = ids.subrange(start, start + count);
    r.to_multiset_ensures();
    assert forall|j: int| start <= j < start + count
        implies (#[trigger] ids[j]) < tris.len() && aabb_contains_tri(b, tris[ids[j] as int]) by {
        assert(r[j - start] == ids[j]);
        assert(r.contains(ids[j]));
        assert(r.to_multiset().contains(ids[j]));
    }
}

/// If a change keeps everything outside `[a, b)` and keeps the multiset of
/// `[a, b)`, it keeps the multiset of any enclosing range.
proof fn lemma_range_mset_split(
    s1: Seq<u32>, s2: Seq<u32>, start: int, count: int, a: int, b: int,
)
    requires
        0 <= start <= a <= b <= start + count,
        start + count <= s1.len(),
        s2.len() == s1.len(),
        forall|j: int| 0 <= j < s1.len() && !(a <= j < b) ==> s2[j] == s1[j],
        s2.subrange(a, b).to_multiset() == s1.subrange(a, b).to_multiset(),
    ensures
        range_mset(s2, start, count) == range_mset(s1, start, count),
{
    let p1 = s1.subrange(start, a);
    let m1 = s1.subrange(a, b);
    let q1 = s1.subrange(b, start + count);
    let p2 = s2.subrange(start, a);
    let m2 = s2.subrange(a, b);
    let q2 = s2.subrange(b, start + count);
    assert(p2 =~= p1);
    assert(q2 =~= q1);
    assert(s1.subrange(start, start + count) =~= (p1 + m1) + q1);
    assert(s2.subrange(start, start + count) =~= (p2 + m2) + q2);
    lemma_multiset_commutative(p1 + m1, q1);
    lemma_multiset_commutative(p2 + m2, q2);
    lemma_multiset_commutative(p1, m1);
    lemma_multiset_commutative(p2, m2);
}

/// Well-formedness of a subtree depends only on the slots of the subtree and
/// the index entries of its range: any other change leaves it standing.
proof fn lemma_wf_frame(
    nodes1: Seq<BVHNode>,
    nodes2: Seq<BVHNode>,
    ids1: Seq<u32>,
    ids2: Seq<u32>,
    tris: Seq<Triangle>,
    i: int,
    start: int,
    count: int,
    lo: int,
    hi: int,
)
    requires
        wf_subtree(nodes1, ids1, tris, i, start, count, lo, hi),
        hi <= nodes2.len(),
        i < nodes2.len(),
        nodes2[i] == nodes1[i],
        forall|j: int| lo <= j < hi ==> nodes2[j] == nodes1[j],
        ids2.len() == ids1.len(),
        forall|j: int| start <= j < start + count ==> ids2[j] == ids1[j],
    ensures
        wf_subtree(nodes2, ids2, tris, i, start, count, lo, hi),
        subtree_count(nodes2, i) == subtree_count(nodes1, i),
        subtree_end(nodes2, i, lo) == subtree_end(nodes1, i, lo),
    decreases count,
{
    if nodes1[i].count > 0 {
        assert forall|j: int| start <= j < start + count
            implies (#[trigger] ids2[j]) < tris.len()
                && aabb_contains_tri(node_aabb(nodes2[i]), tris[ids2[j] as int]) by {
            assert(ids2[j] == ids1[j]);
        }
    } else {
        let c1 = subtree_count(nodes1, lo);
        let mid = subtree_end(nodes1, lo, lo + 2);
        assert(wf_split(nodes1, ids1, tris, i, start, count, lo, hi, c1, mid));
        lemma_wf_frame(nodes1, nodes2, ids1, ids2, tris, lo, start, c1, lo + 2, mid);
        lemma_wf_frame(nodes1, nodes2, ids1, ids2, tris, lo + 1, start + c1, count - c1, mid, hi);
        assert(wf_split(nodes2, ids2, tris, i, start, count, lo, hi, c1, mid));
    }
}

/// A well-formed subtree's triangle count and slot-block end are exactly what
/// `subtree_count` and `subtree_end` read off the node array.
pub proof fn lemma_wf_determines(
    nodes: Seq<BVHNode>,
    ids: Seq<u32>,
    tris: Seq<Triangle>,
    i: int,
    start: int,
    count: int,
    lo: int,
    hi: int,
)
    requires
        wf_subtree(nodes, ids, tris, i, start, count, lo, hi),
    ensures
        subtree_count(nodes, i) == count,
        subtree_end(nodes, i, lo) == hi,
    decreases count,
{
    if nodes[i].count > 0 {
    } else {
        let c1 = subtree_count(nodes, lo);
        let mid = subtree_end(nodes, lo, lo + 2);
        lemma_wf_determines(nodes, ids, tris, lo, start, c1, lo + 2, mid);
        lemma_wf_determines(nodes, ids, tris, lo + 1, start + c1, count - c1, mid, hi);
    }
}

/// Swapping two entries inside a range keeps the range's multiset of ids and
/// every entry outside the range.
proof fn lemma_swap_in_range(s: Seq<u32>, start: int, count: int, a: int, b: int)
    requires
        0 <= start,
        start + count <= s.len(),
        start <= a < start + count,
        start <= b < start + count,
        a != b,
    ensures
        ({
            let s2 = s.update(a, s[b]).update(b, s[a]);
            &&& s2.subrange(start, start + count).to_multiset()
                == s.subrange(start, start + count).to_multiset()
            &&& forall|j: int| 0 <= j < s.len() && !(start <= j < start + count) ==> s2[j] == s[j]
        }),
{
    let s2 = s.update(a, s[b]).update(b, s[a]);
    let r1 = s.subrange(start, start + count);
    let r2 = s2.subrange(start, start + count);
    assert(r2 =~= r1.update(a - start, r1[b - start]).update(b - start, r1[a - start]));
    broadcast use to_multiset_update;
    broadcast use vstd::multiset::group_multiset_axioms;
    let m1 = r1.to_multiset();
    let ra = r1.update(a - start, r1[b - start]);
    assert(ra[b - start] == r1[b - start]);
    assert(ra.to_multiset() == m1.insert(r1[b - start]).remove(r1[a - start]));
    assert(r2.to_multiset() == ra.to_multiset().insert(r1[a - start]).remove(ra[b - start]));
    r1.to_multiset_ensures();
    assert(m1.contains(r1[a - start]));
    assert(r2.to_multiset() =~= m1);
}

} // verus!
