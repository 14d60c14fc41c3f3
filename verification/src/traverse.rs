//! The traversal engine: nearest-hit queries against the finished tree, and
//! the brute-force linear scan it is measured against.

use vstd::prelude::*;
use crate::geom::{Point, Triangle, tris_ok};
use crate::aabb::{Aabb, aabb_ok};
use crate::ray::{
    Ray, Dist, rat_lt, rat_le, wf_rat, rat_lt_exec, lemma_rat_lt_trans, lemma_rat_le_trans,
    lemma_rat_lt_le_trans, spec_hits, spec_det, spec_t_num, spec_commits, spec_slab_dist,
    intersect_triangle, slab_test,
};
use crate::bvh::{Bvh, BVHNode, node_aabb, wf_subtree, wf_split, subtree_count, subtree_end};
use crate::consistency::{lemma_slab_sees_hit, lemma_slab_brackets_hit, lemma_subtree_in_box, lemma_hit_in_box};
use crate::laws::lemma_permutation_law;

verus! {

/// The nearest-hit state after scanning triangles `0 .. j` in order, starting
/// from the state `(tn0/td0, p0)`: each triangle's hit is committed exactly
/// when it is real and strictly nearer than the state so far.
pub open spec fn scan_state(
    tris: Seq<Triangle>,
    o: Point,
    d: Point,
    tn0: int,
    td0: int,
    p0: u32,
    j: int,
) -> (int, int, u32)
    decreases j,
{
    if j <= 0 {
        (tn0, td0, p0)
    } else {
        let prev = scan_state(tris, o, d, tn0, td0, p0, j - 1);
        let t = tris[j - 1];
        if spec_commits(t, o, d, prev.0, prev.1) {
            (spec_t_num(t, o, d), spec_det(t, d), (j - 1) as u32)
        } else {
            prev
        }
    }
}

/// The hit state `(tn/td, p)` is a sound outcome of testing some of the
/// triangles from the state `(tn0/td0, p0)`: either nothing was committed, or
/// the state is the exact hit of the winning triangle, strictly nearer than
/// the starting distance.
pub open spec fn result_sound(
    tris: Seq<Triangle>,
    o: Point,
    d: Point,
    tn0: int,
    td0: int,
    p0: u32,
    tn: int,
    td: int,
    p: u32,
) -> bool {
    ||| (tn == tn0 && td == td0 && p == p0)
    ||| {
        &&& p < tris.len()
        &&& spec_hits(tris[p as int], o, d)
        &&& tn == spec_t_num(tris[p as int], o, d)
        &&& td == spec_det(tris[p as int], d)
        &&& rat_lt(tn, td, tn0, td0)
    }
}

/// Triangle `id` is a real hit strictly nearer than the distance `tn/td`.
pub open spec fn beats(tris: Seq<Triangle>, o: Point, d: Point, tn: int, td: int, id: u32) -> bool {
    &&& id < tris.len()
    &&& spec_hits(tris[id as int], o, d)
    &&& rat_lt(spec_t_num(tris[id as int], o, d), spec_det(tris[id as int], d), tn, td)
}

/// Some position of the index range `[rng.0, rng.0 + rng.1)` holds `id`.
pub open spec fn in_rng(ids: Seq<u32>, rng: (int, int, int, int), id: u32) -> bool {
    exists|p: int| rng.0 <= p < rng.0 + rng.1 && (#[trigger] ids[p]) == id
}

/// `id` is still reachable from the traversal's remaining work: the current
/// node's index range, or the range of some deferred subtree on the stack.
pub open spec fn covered(
    ids: Seq<u32>,
    rng: (int, int, int, int),
    stack: Seq<StackEntry>,
    id: u32,
) -> bool {
    ||| in_rng(ids, rng, id)
    ||| exists|k: int| 0 <= k < stack.len() && in_rng(ids, (#[trigger] stack[k]).rng@, id)
}

/// A deferred far child on the traversal stack: the node slot, the entry
/// distance its box was pushed with, and (ghost) the subtree coordinates
/// that witness its well-formedness.
pub struct StackEntry {
    pub node: u32,
    pub num: i64,
    pub den: i64,
    pub rng: Ghost<(int, int, int, int)>,
}

/// The number of tree nodes at and below a stack entry's subtree, read off
/// its slot range: the bound the traversal's termination measure sums.
pub open spec fn entry_measure(e: StackEntry) -> int {
    1 + (e.rng@.3 - e.rng@.2)
}

pub open spec fn stack_measure(s: Seq<StackEntry>) -> int
    decreases s.len(),
{
    if s.len() == 0 {
        0
    } else {
        entry_measure(s.last()) + stack_measure(s.drop_last())
    }
}

impl Bvh {
    /// A stack entry that really points at a well-formed subtree of this
    /// structure, pushed with a finite distance.
    pub open spec fn entry_wf(self, e: StackEntry) -> bool {
        &&& wf_subtree(
            self.bvh_nodes@, self.indices@, self.triangles@,
            e.node as int, e.rng@.0, e.rng@.1, e.rng@.2, e.rng@.3,
        )
        &&& e.den > 0
    }

    /// Every hit among the entry's subtree triangles lies at or beyond the
    /// entry distance the subtree was deferred with.
    pub open spec fn entry_pending(self, e: StackEntry, o: Point, d: Point) -> bool {
        forall|p: int|
            e.rng@.0 <= p < e.rng@.0 + e.rng@.1
                && (#[trigger] self.indices@[p]) < self.triangles@.len()
                && spec_hits(self.triangles@[self.indices@[p] as int], o, d)
                ==> rat_le(
                e.num as int,
                e.den as int,
                spec_t_num(self.triangles@[self.indices@[p] as int], o, d),
                spec_det(self.triangles@[self.indices@[p] as int], d),
            )
    }

    /// Test one triangle (by id) against the ray, committing the hit if it
    /// is real and strictly nearer than the ray's current best.
    pub fn intersects_triangle(&self, ray: &mut Ray, triangle_index: u32)
        requires
            tris_ok(self.triangles@),
            (triangle_index as int) < self.triangles@.len(),
            old(ray).wf(),
        ensures
            final(ray).o == old(ray).o,
            final(ray).d == old(ray).d,
            final(ray).wf(),
            if spec_commits(
                self.triangles@[triangle_index as int],
                old(ray).o,
                old(ray).d,
                old(ray).t_num as int,
                old(ray).t_den as int,
            ) {
                &&& final(ray).t_num == spec_t_num(
                    self.triangles@[triangle_index as int], old(ray).o, old(ray).d)
                &&& final(ray).t_den == spec_det(
                    self.triangles@[triangle_index as int], old(ray).d)
                &&& final(ray).prim == triangle_index
            } else {
                &&& final(ray).t_num == old(ray).t_num
                &&& final(ray).t_den == old(ray).t_den
                &&& final(ray).prim == old(ray).prim
            },
    {
        let tri = self.triangles[triangle_index as usize];
        intersect_triangle(&tri, triangle_index, ray);
    }

    /// Slab-test the box of one node against the ray.
    pub fn intersect_aabb(&self, ray: &Ray, bvh_node: u32) -> (r: Dist)
        requires
            ray.wf(),
            (bvh_node as int) < self.bvh_nodes@.len(),
            aabb_ok(node_aabb(self.bvh_nodes@[bvh_node as int])),
        ensures
            ({
                let d = spec_slab_dist(
                    node_aabb(self.bvh_nodes@[bvh_node as int]),
                    ray.o, ray.d, ray.t_num as int, ray.t_den as int);
                r.num as int == d.0 && r.den as int == d.1
            }),
            wf_rat(r.num as int, r.den as int),
    {
        let node = &self.bvh_nodes[bvh_node as usize];
        let b = Aabb {
            minx: node.minx, miny: node.miny, minz: node.minz,
            maxx: node.maxx, maxy: node.maxy, maxz: node.maxz,
        };
        slab_test(&b, ray)
    }

    /// Brute-force nearest hit: test every triangle in order.  The final ray
    /// state is exactly the fold of the commit rule over the whole list.
    pub fn intersect(&self, ray: &mut Ray)
        requires
            tris_ok(self.triangles@),
            self.triangles@.len() <= crate::bvh::MAX_TRIS,
            old(ray).wf(),
        ensures
            final(ray).o == old(ray).o,
            final(ray).d == old(ray).d,
            final(ray).wf(),
            ({
                let s = scan_state(
                    self.triangles@, old(ray).o, old(ray).d,
                    old(ray).t_num as int, old(ray).t_den as int, old(ray).prim,
                    self.triangles@.len() as int,
                );
                final(ray).t_num == s.0 && final(ray).t_den == s.1 && final(ray).prim == s.2
            }),
    {
        let n = self.triangles.len();
        let mut triangle_id: usize = 0;
        while triangle_id < n
            invariant
                triangle_id <= n,
                n == self.triangles@.len(),
                n <= crate::bvh::MAX_TRIS,
                tris_ok(self.triangles@),
                ray.wf(),
                ray.o == old(ray).o,
                ray.d == old(ray).d,
                ({
                    let s = scan_state(
                        self.triangles@, old(ray).o, old(ray).d,
                        old(ray).t_num as int, old(ray).t_den as int, old(ray).prim,
                        triangle_id as int,
                    );
                    ray.t_num == s.0 && ray.t_den == s.1 && ray.prim == s.2
                }),
            decreases n - triangle_id,
        {
            self.intersects_triangle(ray, triangle_id as u32);
            triangle_id = triangle_id + 1;
        }
    }

    /// Pop deferred entries until one is found whose stored entry distance is
    /// still nearer than the ray's current best hit; stale entries are
    /// discarded.  Returns `None` once the stack is exhausted.
    fn pop_live(&self, stack: &mut Vec<StackEntry>, t_num: i64, t_den: i64) -> (r: Option<
        StackEntry,
    >)
        requires
            forall|k: int|
                0 <= k < old(stack)@.len() ==> self.entry_wf(#[trigger] old(stack)@[k]),
        ensures
            forall|k: int| 0 <= k < final(stack)@.len()
                ==> final(stack)@[k] == old(stack)@[k],
            final(stack)@.len() <= old(stack)@.len(),
            r is None ==> final(stack)@.len() == 0,
            r is None ==> forall|k: int|
                0 <= k < old(stack)@.len() ==> !rat_lt(
                    (#[trigger] old(stack)@[k]).num as int, old(stack)@[k].den as int,
                    t_num as int, t_den as int,
                ),
            r matches Some(e) ==> {
                &&& self.entry_wf(e)
                &&& final(stack)@.len() < old(stack)@.len()
                &&& e == old(stack)@[final(stack)@.len() as int]
                &&& rat_lt(e.num as int, e.den as int, t_num as int, t_den as int)
                &&& stack_measure(final(stack)@) + entry_measure(e)
                    <= stack_measure(old(stack)@)
                &&& forall|k: int|
                    final(stack)@.len() < k < old(stack)@.len() ==> !rat_lt(
                        (#[trigger] old(stack)@[k]).num as int, old(stack)@[k].den as int,
                        t_num as int, t_den as int,
                    )
            },
    {
        loop
            invariant
                forall|k: int| 0 <= k < stack@.len() ==> stack@[k] == old(stack)@[k],
                stack@.len() <= old(stack)@.len(),
                forall|k: int|
                    0 <= k < old(stack)@.len() ==> self.entry_wf(#[trigger] old(stack)@[k]),
                stack_measure(stack@) <= stack_measure(old(stack)@),
                forall|k: int|
                    stack@.len() <= k < old(stack)@.len() ==> !rat_lt(
                        (#[trigger] old(stack)@[k]).num as int, old(stack)@[k].den as int,
                        t_num as int, t_den as int,
                    ),
            decreases stack@.len(),
        {
            let ghost pre = stack@;
            match stack.pop() {
                None => {
                    return None;
                },
                Some(e) => {
                    proof {
                        assert(pre.last() == e);
                        assert(stack@ =~= pre.drop_last());
                        assert(stack_measure(pre) == entry_measure(e) + stack_measure(stack@));
                        assert(self.entry_wf(e));
                    }
                    if rat_lt_exec(e.num, e.den, t_num, t_den) {
                        return Some(e);
                    }
                    proof {
                        // A discarded entry still pays at least one unit of
                        // the measure, because its subtree is non-empty.
                        assert(entry_measure(e) >= 1);
                    }
                },
            }
        }
    }

    /// Iterative near-first traversal with an explicit stack.
    ///
    /// The ray's final state is a sound outcome: either untouched, or the
    /// exact hit of a real triangle of the structure, strictly nearer than
    /// the initial distance.  On a built structure the outcome is also
    /// complete: no triangle hit lies strictly nearer than the reported
    /// distance.  An empty scene (no nodes) reports no hit.
    pub fn fast_intersect(&self, ray: &mut Ray)
        requires
            self.queryable(),
            old(ray).wf(),
        ensures
            final(ray).o == old(ray).o,
            final(ray).d == old(ray).d,
            final(ray).wf(),
            result_sound(
                self.triangles@, old(ray).o, old(ray).d,
                old(ray).t_num as int, old(ray).t_den as int, old(ray).prim,
                final(ray).t_num as int, final(ray).t_den as int, final(ray).prim,
            ),
            self.built() ==> forall|id: u32|
                id < self.triangles@.len() && spec_hits(
                    #[trigger] self.triangles@[id as int], old(ray).o, old(ray).d)
                    ==> rat_le(
                    final(ray).t_num as int,
                    final(ray).t_den as int,
                    spec_t_num(self.triangles@[id as int], old(ray).o, old(ray).d),
                    spec_det(self.triangles@[id as int], old(ray).d),
                ),
    {
        if self.bvh_nodes.len() == 0 {
            return;
        }
        let ghost ro = old(ray).o;
        let ghost rd = old(ray).d;
        let mut node_index: usize = 0;
        let ghost mut rng: (int, int, int, int) =
            (0int, self.n(), 2int, self.bvh_nodes@.len() as int);
        let mut stack: Vec<StackEntry> = Vec::new();
        proof {
            // Initially every triangle id occurs in the root's index range.
            lemma_permutation_law(self.indices@, self.n());
            assert forall|id: u32|
                beats(self.triangles@, ro, rd, ray.t_num as int, ray.t_den as int, id)
                implies covered(self.indices@, rng, stack@, id) by {
                assert(self.indices@.contains(id));
                let p = choose|p: int|
                    0 <= p < self.indices@.len() && self.indices@[p] == id;
                assert(rng.0 <= p < rng.0 + rng.1 && self.indices@[p] == id);
            }
        }
        loop
            invariant
                self.built(),
                old(ray).wf(),
                ray.wf(),
                ray.o == ro,
                ray.d == rd,
                ro == old(ray).o,
                rd == old(ray).d,
                result_sound(
                    self.triangles@, ro, rd,
                    old(ray).t_num as int, old(ray).t_den as int, old(ray).prim,
                    ray.t_num as int, ray.t_den as int, ray.prim,
                ),
                wf_subtree(
                    self.bvh_nodes@, self.indices@, self.triangles@,
                    node_index as int, rng.0, rng.1, rng.2, rng.3,
                ),
                forall|k: int| 0 <= k < stack@.len() ==> self.entry_wf(#[trigger] stack@[k]),
                forall|k: int|
                    0 <= k < stack@.len() ==> self.entry_pending(#[trigger] stack@[k], ro, rd),
                forall|id: u32|
                    beats(self.triangles@, ro, rd, ray.t_num as int, ray.t_den as int, id)
                        ==> covered(self.indices@, rng, stack@, id),
            decreases stack_measure(stack@) + 1 + (rng.3 - rng.2),
        {
            let ghost m0 = stack_measure(stack@) + 1 + (rng.3 - rng.2);
            let node = self.bvh_nodes[node_index];
            if node.count > 0 {
                // A leaf: test every triangle it owns.
                let first = node.left_first as usize;
                let cnt = node.count as usize;
                let mut k: usize = 0;
                while k < cnt
                    invariant
                        k <= cnt,
                        self.built(),
                        first == rng.0,
                        cnt == rng.1,
                        first + cnt <= self.indices@.len(),
                        forall|j: int|
                            first <= j < first + cnt
                                ==> (#[trigger] self.indices@[j]) < self.triangles@.len(),
                        old(ray).wf(),
                        ray.wf(),
                        ray.o == ro,
                        ray.d == rd,
                        ro == old(ray).o,
                        rd == old(ray).d,
                        result_sound(
                            self.triangles@, ro, rd,
                            old(ray).t_num as int, old(ray).t_den as int, old(ray).prim,
                            ray.t_num as int, ray.t_den as int, ray.prim,
                        ),
                        forall|k2: int|
                            0 <= k2 < stack@.len() ==> self.entry_wf(#[trigger] stack@[k2]),
                        forall|k2: int|
                            0 <= k2 < stack@.len()
                                ==> self.entry_pending(#[trigger] stack@[k2], ro, rd),
                        forall|id: u32|
                            beats(self.triangles@, ro, rd, ray.t_num as int, ray.t_den as int, id)
                                ==> covered(self.indices@, rng, stack@, id),
                        forall|p: int|
                            first <= p < first + k && spec_hits(
                                self.triangles@[(#[trigger] self.indices@[p]) as int], ro, rd)
                                ==> !rat_lt(
                                spec_t_num(self.triangles@[self.indices@[p] as int], ro, rd),
                                spec_det(self.triangles@[self.indices@[p] as int], rd),
                                ray.t_num as int,
                                ray.t_den as int,
                            ),
                    decreases cnt - k,
                {
                    let ghost pre = *ray;
                    let id = self.indices[first + k];
                    self.intersects_triangle(ray, id);
                    proof {
                        lemma_sound_step(
                            self.triangles@, ro, rd,
                            old(ray).t_num as int, old(ray).t_den as int, old(ray).prim,
                            pre, *ray, id,
                        );
                        // The best distance never grew, so everything ruled
                        // out before stays ruled out, and anything beating
                        // the new distance beat the old one.
                        assert(rat_le(
                            ray.t_num as int, ray.t_den as int,
                            pre.t_num as int, pre.t_den as int,
                        ));
                        assert forall|p: int|
                            first <= p < first + (k + 1) && spec_hits(
                                self.triangles@[(#[trigger] self.indices@[p]) as int], ro, rd)
                            implies !rat_lt(
                                spec_t_num(self.triangles@[self.indices@[p] as int], ro, rd),
                                spec_det(self.triangles@[self.indices@[p] as int], rd),
                                ray.t_num as int,
                                ray.t_den as int,
                            ) by {
                            let tp = self.triangles@[self.indices@[p] as int];
                            if p < first + k {
                                if rat_lt(
                                    spec_t_num(tp, ro, rd), spec_det(tp, rd),
                                    ray.t_num as int, ray.t_den as int,
                                ) {
                                    lemma_rat_lt_le_trans(
                                        spec_t_num(tp, ro, rd), spec_det(tp, rd),
                                        ray.t_num as int, ray.t_den as int,
                                        pre.t_num as int, pre.t_den as int,
                                    );
                                }
                            }
                        }
                        assert forall|id2: u32|
                            beats(self.triangles@, ro, rd, ray.t_num as int, ray.t_den as int, id2)
                            implies covered(self.indices@, rng, stack@, id2) by {
                            let t2 = self.triangles@[id2 as int];
                            lemma_rat_lt_le_trans(
                                spec_t_num(t2, ro, rd), spec_det(t2, rd),
                                ray.t_num as int, ray.t_den as int,
                                pre.t_num as int, pre.t_den as int,
                            );
                        }
                    }
                    k = k + 1;
                }
                let ghost spre = stack@;
                match self.pop_live(&mut stack, ray.t_num, ray.t_den) {
                    None => {
                        proof {
                            self.lemma_done(
                                *ray, ro, rd, old(ray).t_num as int, old(ray).t_den as int,
                                old(ray).prim, rng, spre,
                            );
                        }
                        return;
                    },
                    Some(e) => {
                        node_index = e.node as usize;
                        proof {
                            assert forall|id2: u32|
                                beats(self.triangles@, ro, rd,
                                    ray.t_num as int, ray.t_den as int, id2)
                                implies covered(self.indices@, e.rng@, stack@, id2) by {
                                self.lemma_transfer_cover(
                                    *ray, ro, rd, rng, spre, stack@, e, id2,
                                );
                            }
                            rng = e.rng@;
                            lemma_stack_measure_nonneg(*self, stack@);
                            assert(stack_measure(stack@) + 1 + (rng.3 - rng.2) < m0);
                        }
                    },
                }
            } else {
                // An internal node: slab-test both children, descend into
                // the nearer one, defer the farther one if it was hit.
                proof {
                    assert(wf_split(
                        self.bvh_nodes@, self.indices@, self.triangles@,
                        node_index as int, rng.0, rng.1, rng.2, rng.3,
                        subtree_count(self.bvh_nodes@, rng.2),
                        subtree_end(self.bvh_nodes@, rng.2, rng.2 + 2),
                    ));
                }
                let ghost c1 = subtree_count(self.bvh_nodes@, rng.2);
                let ghost mid = subtree_end(self.bvh_nodes@, rng.2, rng.2 + 2);
                let mut child1 = node.left_first as u32;
                let mut child2 = child1 + 1;
                let ghost mut rng_a: (int, int, int, int) = (rng.0, c1, rng.2 + 2, mid);
                let ghost mut rng_b: (int, int, int, int) = (rng.0 + c1, rng.1 - c1, mid, rng.3);

                let mut dist1 = self.intersect_aabb(ray, child1);
                let mut dist2 = self.intersect_aabb(ray, child2);
                if rat_lt_exec(dist2.num, dist2.den, dist1.num, dist1.den) {
                    let tmp = dist1;
                    dist1 = dist2;
                    dist2 = tmp;
                    let tmpc = child1;
                    child1 = child2;
                    child2 = tmpc;
                    proof {
                        let tmpr = rng_a;
                        rng_a = rng_b;
                        rng_b = tmpr;
                    }
                }
                proof {
                    assert(wf_subtree(
                        self.bvh_nodes@, self.indices@, self.triangles@,
                        child1 as int, rng_a.0, rng_a.1, rng_a.2, rng_a.3,
                    ));
                    assert(wf_subtree(
                        self.bvh_nodes@, self.indices@, self.triangles@,
                        child2 as int, rng_b.0, rng_b.1, rng_b.2, rng_b.3,
                    ));
                }
                if dist1.is_miss() {
                    // The nearer child is missed, so both are: no triangle
                    // of this node's range can beat the ray's best.
                    proof {
                        assert(dist2.den == 0);
                        self.lemma_children_missed(*ray, ro, rd, rng, rng_a, rng_b, child1, child2);
                    }
                    let ghost spre = stack@;
                    match self.pop_live(&mut stack, ray.t_num, ray.t_den) {
                        None => {
                            proof {
                                self.lemma_done(
                                    *ray, ro, rd, old(ray).t_num as int, old(ray).t_den as int,
                                    old(ray).prim, rng, spre,
                                );
                            }
                            return;
                        },
                        Some(e) => {
                            node_index = e.node as usize;
                            proof {
                                assert forall|id2: u32|
                                    beats(self.triangles@, ro, rd,
                                        ray.t_num as int, ray.t_den as int, id2)
                                    implies covered(self.indices@, e.rng@, stack@, id2) by {
                                    self.lemma_transfer_cover(
                                        *ray, ro, rd, rng, spre, stack@, e, id2,
                                    );
                                }
                                rng = e.rng@;
                                lemma_stack_measure_nonneg(*self, stack@);
                                assert(stack_measure(stack@) + 1 + (rng.3 - rng.2) < m0);
                            }
                        },
                    }
                } else {
                    let ghost pre_stack = stack@;
                    node_index = child1 as usize;
                    if !dist2.is_miss() {
                        stack.push(StackEntry {
                            node: child2,
                            num: dist2.num,
                            den: dist2.den,
                            rng: Ghost(rng_b),
                        });
                        proof {
                            assert(stack@.drop_last() =~= pre_stack);
                            assert(stack@.last() == StackEntry {
                                node: child2, num: dist2.num, den: dist2.den, rng: Ghost(rng_b),
                            });
                            assert(stack_measure(stack@)
                                == stack_measure(pre_stack) + entry_measure(stack@.last()));
                            // The pushed entry's distance is at or below
                            // every hit in its subtree.
                            self.lemma_push_pending(*ray, ro, rd, rng_b, child2, dist2);
                        }
                    } else {
                        proof {
                            // The far child was missed: nothing in its range
                            // can beat the ray's best.
                            self.lemma_child_missed(*ray, ro, rd, rng_b, child2);
                        }
                    }
                    proof {
                        assert forall|id2: u32|
                            beats(self.triangles@, ro, rd, ray.t_num as int, ray.t_den as int, id2)
                            implies covered(self.indices@, rng_a, stack@, id2) by {
                            if covered(self.indices@, rng, pre_stack, id2) {
                                if in_rng(self.indices@, rng, id2) {
                                    let p = choose|p: int|
                                        rng.0 <= p < rng.0 + rng.1
                                            && (#[trigger] self.indices@[p]) == id2;
                                    if rng_a.0 <= p < rng_a.0 + rng_a.1 {
                                        assert(in_rng(self.indices@, rng_a, id2));
                                    } else {
                                        assert(rng_b.0 <= p < rng_b.0 + rng_b.1);
                                        assert(in_rng(self.indices@, rng_b, id2));
                                        if dist2.den != 0 {
                                            assert(stack@[stack@.len() - 1].rng@ == rng_b);
                                        } else {
                                            assert(!beats(self.triangles@, ro, rd,
                                                ray.t_num as int, ray.t_den as int, id2));
                                        }
                                    }
                                } else {
                                    let kk = choose|kk: int|
                                        0 <= kk < pre_stack.len()
                                            && in_rng(self.indices@, (#[trigger] pre_stack[kk]).rng@, id2);
                                    assert(stack@[kk] == pre_stack[kk]);
                                }
                            }
                        }
                        rng = rng_a;
                        lemma_stack_measure_nonneg(*self, stack@);
                        assert(stack_measure(stack@) + 1 + (rng.3 - rng.2) < m0);
                        assert(stack_measure(stack@) + 1 + (rng.3 - rng.2) >= 0);
                    }
                }
            }
        }
    }

    /// The far-child case of coverage: a subtree whose box the slab test
    /// missed holds no hit that beats the ray's best.
    proof fn lemma_child_missed(
        &self, ray: Ray, ro: Point, rd: Point,
        crng: (int, int, int, int), child: u32,
    )
        requires
            self.built(),
            ray.wf(),
            ray.o == ro,
            ray.d == rd,
            wf_subtree(
                self.bvh_nodes@, self.indices@, self.triangles@,
                child as int, crng.0, crng.1, crng.2, crng.3,
            ),
            spec_slab_dist(
                node_aabb(self.bvh_nodes@[child as int]), ro, rd,
                ray.t_num as int, ray.t_den as int,
            ).1 == 0,
        ensures
            forall|p: int|
                crng.0 <= p < crng.0 + crng.1 ==> !beats(
                    self.triangles@, ro, rd, ray.t_num as int, ray.t_den as int,
                    #[trigger] self.indices@[p],
                ),
    {
        let b = node_aabb(self.bvh_nodes@[child as int]);
        lemma_subtree_in_box(
            self.bvh_nodes@, self.indices@, self.triangles@,
            child as int, crng.0, crng.1, crng.2, crng.3,
        );
        assert forall|p: int| crng.0 <= p < crng.0 + crng.1
            implies !beats(
                self.triangles@, ro, rd, ray.t_num as int, ray.t_den as int,
                #[trigger] self.indices@[p],
            ) by {
            let id = self.indices@[p];
            if beats(self.triangles@, ro, rd, ray.t_num as int, ray.t_den as int, id) {
                lemma_slab_sees_hit(
                    b, ro, rd, self.triangles@[id as int],
                    ray.t_num as int, ray.t_den as int,
                );
                crate::ray::lemma_slab_fold_wf(b, ro, rd);
            }
        }
    }

    /// Both children of the current node were missed: nothing in the node's
    /// whole range beats the ray's best.
    proof fn lemma_children_missed(
        &self, ray: Ray, ro: Point, rd: Point,
        rng: (int, int, int, int),
        rng_a: (int, int, int, int), rng_b: (int, int, int, int),
        child1: u32, child2: u32,
    )
        requires
            self.built(),
            ray.wf(),
            ray.o == ro,
            ray.d == rd,
            rng_a.0 == rng.0 || rng_b.0 == rng.0,
            rng_a.0 + rng_a.1 == rng.0 + rng.1 || rng_b.0 + rng_b.1 == rng.0 + rng.1,
            rng_a.0 == rng.0 ==> rng_b.0 == rng_a.0 + rng_a.1
                && rng_b.0 + rng_b.1 == rng.0 + rng.1,
            rng_b.0 == rng.0 ==> rng_a.0 == rng_b.0 + rng_b.1
                && rng_a.0 + rng_a.1 == rng.0 + rng.1,
            wf_subtree(
                self.bvh_nodes@, self.indices@, self.triangles@,
                child1 as int, rng_a.0, rng_a.1, rng_a.2, rng_a.3,
            ),
            wf_subtree(
                self.bvh_nodes@, self.indices@, self.triangles@,
                child2 as int, rng_b.0, rng_b.1, rng_b.2, rng_b.3,
            ),
            spec_slab_dist(
                node_aabb(self.bvh_nodes@[child1 as int]), ro, rd,
                ray.t_num as int, ray.t_den as int,
            ).1 == 0,
            spec_slab_dist(
                node_aabb(self.bvh_nodes@[child2 as int]), ro, rd,
                ray.t_num as int, ray.t_den as int,
            ).1 == 0,
        ensures
            forall|p: int|
                rng.0 <= p < rng.0 + rng.1 ==> !beats(
                    self.triangles@, ro, rd, ray.t_num as int, ray.t_den as int,
                    #[trigger] self.indices@[p],
                ),
    {
        self.lemma_child_missed(ray, ro, rd, rng_a, child1);
        self.lemma_child_missed(ray, ro, rd, rng_b, child2);
    }

    /// Carry coverage across a pop: everything that still beats the best
    /// distance was covered before, is excluded from the finished range, and
    /// lands either in the resumed subtree or in the remaining stack.
    proof fn lemma_transfer_cover(
        &self, ray: Ray, ro: Point, rd: Point,
        rng: (int, int, int, int),
        spre: Seq<StackEntry>, snew: Seq<StackEntry>, e: StackEntry, id: u32,
    )
        requires
            self.built(),
            ray.wf(),
            ray.o == ro,
            ray.d == rd,
            beats(self.triangles@, ro, rd, ray.t_num as int, ray.t_den as int, id),
            covered(self.indices@, rng, spre, id),
            // the finished range holds nothing that still beats
            forall|p: int|
                rng.0 <= p < rng.0 + rng.1 ==> !beats(
                    self.triangles@, ro, rd, ray.t_num as int, ray.t_den as int,
                    #[trigger] self.indices@[p],
                ),
            forall|k: int| 0 <= k < spre.len() ==> self.entry_wf(#[trigger] spre[k]),
            forall|k: int| 0 <= k < spre.len() ==> self.entry_pending(#[trigger] spre[k], ro, rd),
            forall|k: int| 0 <= k < snew.len() ==> #[trigger] snew[k] == spre[k],
            snew.len() < spre.len(),
            e == spre[snew.len() as int],
            forall|k: int|
                snew.len() < k < spre.len() ==> !rat_lt(
                    (#[trigger] spre[k]).num as int, spre[k].den as int,
                    ray.t_num as int, ray.t_den as int,
                ),
        ensures
            covered(self.indices@, e.rng@, snew, id),
    {
        if in_rng(self.indices@, rng, id) {
            let p = choose|p: int|
                rng.0 <= p < rng.0 + rng.1 && (#[trigger] self.indices@[p]) == id;
            assert(false);
        } else {
            let k = choose|k: int|
                0 <= k < spre.len() && in_rng(self.indices@, (#[trigger] spre[k]).rng@, id);
            if k < snew.len() {
                assert(snew[k] == spre[k]);
                assert(in_rng(self.indices@, snew[k].rng@, id));
            } else if k == snew.len() {
                assert(in_rng(self.indices@, e.rng@, id));
            } else {
                // a discarded entry: its stored distance no longer beats the
                // best, and every hit in its range is at or beyond it
                let ee = spre[k];
                let p = choose|p: int|
                    ee.rng@.0 <= p < ee.rng@.0 + ee.rng@.1
                        && (#[trigger] self.indices@[p]) == id;
                let tp = self.triangles@[id as int];
                assert(rat_le(
                    ee.num as int, ee.den as int,
                    spec_t_num(tp, ro, rd), spec_det(tp, rd),
                ));
                lemma_rat_le_trans(
                    ray.t_num as int, ray.t_den as int,
                    ee.num as int, ee.den as int,
                    spec_t_num(tp, ro, rd), spec_det(tp, rd),
                );
                assert(false);
            }
        }
    }

    /// At the end of the traversal nothing beats the final distance: the
    /// current range was finished, and every stack entry went stale.
    proof fn lemma_done(
        &self, ray: Ray, ro: Point, rd: Point, tn0: int, td0: int, p0: u32,
        rng: (int, int, int, int), spre: Seq<StackEntry>,
    )
        requires
            self.built(),
            ray.wf(),
            ray.o == ro,
            ray.d == rd,
            forall|id: u32|
                beats(self.triangles@, ro, rd, ray.t_num as int, ray.t_den as int, id)
                    ==> covered(self.indices@, rng, spre, id),
            forall|p: int|
                rng.0 <= p < rng.0 + rng.1 ==> !beats(
                    self.triangles@, ro, rd, ray.t_num as int, ray.t_den as int,
                    #[trigger] self.indices@[p],
                ),
            forall|k: int| 0 <= k < spre.len() ==> self.entry_wf(#[trigger] spre[k]),
            forall|k: int| 0 <= k < spre.len() ==> self.entry_pending(#[trigger] spre[k], ro, rd),
            forall|k: int|
                0 <= k < spre.len() ==> !rat_lt(
                    (#[trigger] spre[k]).num as int, spre[k].den as int,
                    ray.t_num as int, ray.t_den as int,
                ),
        ensures
            forall|id: u32|
                id < self.triangles@.len() && spec_hits(
                    #[trigger] self.triangles@[id as int], ro, rd)
                    ==> rat_le(
                    ray.t_num as int, ray.t_den as int,
                    spec_t_num(self.triangles@[id as int], ro, rd),
                    spec_det(self.triangles@[id as int], rd),
                ),
    {
        assert forall|id: u32|
            id < self.triangles@.len() && spec_hits(#[trigger] self.triangles@[id as int], ro, rd)
            implies rat_le(
                ray.t_num as int, ray.t_den as int,
                spec_t_num(self.triangles@[id as int], ro, rd),
                spec_det(self.triangles@[id as int], rd),
            ) by {
            let tp = self.triangles@[id as int];
            if rat_lt(
                spec_t_num(tp, ro, rd), spec_det(tp, rd),
                ray.t_num as int, ray.t_den as int,
            ) {
                assert(beats(self.triangles@, ro, rd, ray.t_num as int, ray.t_den as int, id));
                assert(covered(self.indices@, rng, spre, id));
                if in_rng(self.indices@, rng, id) {
                    let p = choose|p: int|
                        rng.0 <= p < rng.0 + rng.1 && (#[trigger] self.indices@[p]) == id;
                    assert(false);
                } else {
                    let k = choose|k: int|
                        0 <= k < spre.len()
                            && in_rng(self.indices@, (#[trigger] spre[k]).rng@, id);
                    let ee = spre[k];
                    let p = choose|p: int|
                        ee.rng@.0 <= p < ee.rng@.0 + ee.rng@.1
                            && (#[trigger] self.indices@[p]) == id;
                    lemma_rat_le_trans(
                        ray.t_num as int, ray.t_den as int,
                        ee.num as int, ee.den as int,
                        spec_t_num(tp, ro, rd), spec_det(tp, rd),
                    );
                    assert(false);
                }
            }
        }
    }

    /// The entry pushed for a deferred far child is pending: its stored
    /// entry distance is at or below every hit among its subtree triangles.
    proof fn lemma_push_pending(
        &self, ray: Ray, ro: Point, rd: Point,
        crng: (int, int, int, int), child: u32, dist: Dist,
    )
        requires
            self.built(),
            ray.wf(),
            ray.o == ro,
            ray.d == rd,
            wf_subtree(
                self.bvh_nodes@, self.indices@, self.triangles@,
                child as int, crng.0, crng.1, crng.2, crng.3,
            ),
            dist.num as int == spec_slab_dist(
                node_aabb(self.bvh_nodes@[child as int]), ro, rd,
                ray.t_num as int, ray.t_den as int,
            ).0,
            dist.den as int == spec_slab_dist(
                node_aabb(self.bvh_nodes@[child as int]), ro, rd,
                ray.t_num as int, ray.t_den as int,
            ).1,
            dist.den != 0,
        ensures
            self.entry_pending(
                StackEntry { node: child, num: dist.num, den: dist.den, rng: Ghost(crng) },
                ro, rd,
            ),
    {
        let b = node_aabb(self.bvh_nodes@[child as int]);
        lemma_subtree_in_box(
            self.bvh_nodes@, self.indices@, self.triangles@,
            child as int, crng.0, crng.1, crng.2, crng.3,
        );
        let e = StackEntry { node: child, num: dist.num, den: dist.den, rng: Ghost(crng) };
        assert forall|p: int|
            e.rng@.0 <= p < e.rng@.0 + e.rng@.1
                && (#[trigger] self.indices@[p]) < self.triangles@.len()
                && spec_hits(self.triangles@[self.indices@[p] as int], ro, rd)
            implies rat_le(
                e.num as int, e.den as int,
                spec_t_num(self.triangles@[self.indices@[p] as int], ro, rd),
                spec_det(self.triangles@[self.indices@[p] as int], rd),
            ) by {
            let tp = self.triangles@[self.indices@[p] as int];
            lemma_hit_in_box(tp, ro, rd, b);
            lemma_slab_brackets_hit(b, ro, rd, spec_t_num(tp, ro, rd), spec_det(tp, rd));
        }
    }
}

/// A stack of well-formed entries has a non-negative measure.
proof fn lemma_stack_measure_nonneg(b: Bvh, s: Seq<StackEntry>)
    requires
        forall|k: int| 0 <= k < s.len() ==> b.entry_wf(#[trigger] s[k]),
    ensures
        stack_measure(s) >= 0,
    decreases s.len(),
{
    if s.len() > 0 {
        assert(b.entry_wf(s[s.len() - 1]));
        lemma_stack_measure_nonneg(b, s.drop_last());
    }
}

/// One triangle test keeps the traversal's running state sound.
proof fn lemma_sound_step(
    tris: Seq<Triangle>,
    o: Point,
    d: Point,
    tn0: int,
    td0: int,
    p0: u32,
    pre: Ray,
    post: Ray,
    id: u32,
)
    requires
        (id as int) < tris.len(),
        pre.wf(),
        post.wf(),
        pre.o == o && pre.d == d,
        post.o == o && post.d == d,
        wf_rat(tn0, td0),
        result_sound(
            tris, o, d, tn0, td0, p0,
            pre.t_num as int, pre.t_den as int, pre.prim,
        ),
        if spec_commits(tris[id as int], o, d, pre.t_num as int, pre.t_den as int) {
            &&& post.t_num == spec_t_num(tris[id as int], o, d)
            &&& post.t_den == spec_det(tris[id as int], d)
            &&& post.prim == id
        } else {
            &&& post.t_num == pre.t_num
            &&& post.t_den == pre.t_den
            &&& post.prim == pre.prim
        },
    ensures
        result_sound(
            tris, o, d, tn0, td0, p0,
            post.t_num as int, post.t_den as int, post.prim,
        ),
{
    if spec_commits(tris[id as int], o, d, pre.t_num as int, pre.t_den as int) {
        if !(pre.t_num == tn0 && pre.t_den == td0 && pre.prim == p0) {
            lemma_rat_lt_trans(
                post.t_num as int, post.t_den as int,
                pre.t_num as int, pre.t_den as int,
                tn0, td0,
            );
        }
    }
}

} // verus!
