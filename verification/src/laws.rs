//! The structural laws of the finished tree, stated and proved over the
//! well-formedness predicate that `build_bvh` establishes, and the relation
//! between traversal outcomes and the brute-force linear scan.

use vstd::prelude::*;
use vstd::multiset::Multiset;
use vstd::seq_lib::lemma_multiset_commutative;
use crate::geom::{Point, Triangle};
use crate::aabb::{aabb_ok, aabb_contains_tri, aabb_contains_aabb};
use crate::ray::{rat_le, wf_rat, lemma_rat_le_trans, spec_hits, spec_det, spec_t_num, spec_commits};
use crate::bvh::{
    BVHNode, node_aabb, ident_seq, wf_subtree, wf_split, subtree_count, subtree_end,
    subtree_internal, LEAF_THRESHOLD,
};
use crate::traverse::{scan_state, result_sound};

verus! {

/// Partition law: an internal node's children split its triangle count and
/// its index range exactly — the left child owns `[start, start + c1)` and
/// `c1` triangles, the right child the adjacent rest, nothing lost and
/// nothing duplicated.
pub proof fn lemma_partition_law(
    nodes: Seq<BVHNode>,
    ids: Seq<u32>,
    tris: Seq<Triangle>,
    i: int,
    start: int,
    count: int,
    lo: int,
    hi: int,
)
    requires
        wf_subtree(nodes, ids, tris, i, start, count, lo, hi),
        nodes[i].count == 0,
    ensures
        nodes[i].left_first == lo,
        ({
            let c1 = subtree_count(nodes, lo);
            let mid = subtree_end(nodes, lo, lo + 2);
            &&& 0 < c1 < count
            &&& subtree_count(nodes, lo) + subtree_count(nodes, lo + 1) == count
            &&& wf_subtree(nodes, ids, tris, lo, start, c1, lo + 2, mid)
            &&& wf_subtree(nodes, ids, tris, lo + 1, start + c1, count - c1, mid, hi)
        }),
{
    let c1 = subtree_count(nodes, lo);
    let mid = subtree_end(nodes, lo, lo + 2);
    assert(wf_split(nodes, ids, tris, i, start, count, lo, hi, c1, mid));
    crate::bvh::lemma_wf_determines(nodes, ids, tris, lo + 1, start + c1, count - c1, mid, hi);
}

/// What the containment law asserts of one node: a leaf's box contains every
/// vertex of every triangle it owns; an internal node's box contains both
/// children's boxes.
pub open spec fn containment_at(
    nodes: Seq<BVHNode>,
    ids: Seq<u32>,
    tris: Seq<Triangle>,
    j: int,
) -> bool {
    &&& 0 <= j < nodes.len()
    &&& if nodes[j].count > 0 {
        let first = nodes[j].left_first as int;
        let cnt = nodes[j].count as int;
        &&& 0 <= first
        &&& first + cnt <= ids.len()
        &&& forall|k: int|
            first <= k < first + cnt ==> (#[trigger] ids[k]) < tris.len()
                && aabb_contains_tri(node_aabb(nodes[j]), tris[ids[k] as int])
    } else {
        let l = nodes[j].left_first as int;
        &&& 0 <= l
        &&& l + 1 < nodes.len()
        &&& aabb_contains_aabb(node_aabb(nodes[j]), node_aabb(nodes[l]))
        &&& aabb_contains_aabb(node_aabb(nodes[j]), node_aabb(nodes[l + 1]))
    }
}

/// Containment law: at every node of the tree — the root and every slot of
/// its descendant block — the node's box contains what the node stands for.
pub proof fn lemma_containment_law(
    nodes: Seq<BVHNode>,
    ids: Seq<u32>,
    tris: Seq<Triangle>,
    i: int,
    start: int,
    count: int,
    lo: int,
    hi: int,
)
    requires
        wf_subtree(nodes, ids, tris, i, start, count, lo, hi),
    ensures
        forall|j: int| (j == i || lo <= j < hi) ==> containment_at(nodes, ids, tris, j),
    decreases count,
{
    if nodes[i].count > 0 {
        assert(containment_at(nodes, ids, tris, i));
    } else {
        let c1 = subtree_count(nodes, lo);
        let mid = subtree_end(nodes, lo, lo + 2);
        assert(wf_split(nodes, ids, tris, i, start, count, lo, hi, c1, mid));
        lemma_containment_law(nodes, ids, tris, lo, start, c1, lo + 2, mid);
        lemma_containment_law(nodes, ids, tris, lo + 1, start + c1, count - c1, mid, hi);
        assert(containment_at(nodes, ids, tris, i));
    }
}

/// Leaf-size and box-bound law: every node of the tree is either internal
/// (`count == 0`) or a leaf with at most `LEAF_THRESHOLD` triangles, and
/// every node's box coordinates stay within the library's coordinate bound.
pub proof fn lemma_leaf_size_law(
    nodes: Seq<BVHNode>,
    ids: Seq<u32>,
    tris: Seq<Triangle>,
    i: int,
    start: int,
    count: int,
    lo: int,
    hi: int,
)
    requires
        wf_subtree(nodes, ids, tris, i, start, count, lo, hi),
    ensures
        forall|j: int|
            (j == i || lo <= j < hi) ==> 0 <= nodes[j].count <= LEAF_THRESHOLD
                && aabb_ok(node_aabb(nodes[j])),
    decreases count,
{
    if nodes[i].count > 0 {
    } else {
        let c1 = subtree_count(nodes, lo);
        let mid = subtree_end(nodes, lo, lo + 2);
        assert(wf_split(nodes, ids, tris, i, start, count, lo, hi, c1, mid));
        lemma_leaf_size_law(nodes, ids, tris, lo, start, c1, lo + 2, mid);
        lemma_leaf_size_law(nodes, ids, tris, lo + 1, start + c1, count - c1, mid, hi);
    }
}

/// The number of times `v` occurs in the identity permutation `0..n`: once
/// when `v < n`, never otherwise.
proof fn lemma_ident_count(n: int, v: u32)
    requires
        0 <= n <= 0x1_0000_0000,
    ensures
        ident_seq(n).to_multiset().count(v) == if (v as int) < n { 1int } else { 0int },
    decreases n,
{
    broadcast use vstd::multiset::group_multiset_axioms;
    ident_seq(n).to_multiset_ensures();
    if n == 0 {
        assert(ident_seq(0) =~= Seq::<u32>::empty());
        assert(ident_seq(0).to_multiset() =~= Multiset::<u32>::empty());
    } else {
        lemma_ident_count(n - 1, v);
        assert(ident_seq(n) =~= ident_seq(n - 1).push((n - 1) as u32));
        ident_seq(n - 1).to_multiset_ensures();
    }
}

/// Two equal entries at different positions make the value count at least 2.
proof fn lemma_two_positions(s: Seq<u32>, j1: int, j2: int)
    requires
        0 <= j1 < j2 < s.len(),
        s[j1] == s[j2],
    ensures
        s.to_multiset().count(s[j1]) >= 2,
{
    broadcast use vstd::multiset::group_multiset_axioms;
    let v = s[j1];
    let a = s.subrange(0, j1);
    let b = s.subrange(j1, j1 + 1);
    let c = s.subrange(j1 + 1, j2);
    let d = s.subrange(j2, j2 + 1);
    let e = s.subrange(j2 + 1, s.len() as int);
    assert(s =~= (((a + b) + c) + d) + e);
    lemma_multiset_commutative((((a + b) + c) + d), e);
    lemma_multiset_commutative(((a + b) + c), d);
    lemma_multiset_commutative((a + b), c);
    lemma_multiset_commutative(a, b);
    b.to_multiset_ensures();
    d.to_multiset_ensures();
    assert(b =~= seq![v]);
    assert(d =~= seq![v]);
    assert(b.to_multiset().count(v) >= 1) by {
        assert(b.contains(v));
    }
    assert(d.to_multiset().count(v) >= 1) by {
        assert(d.contains(v));
    }
}

/// Permutation law: an index array whose multiset of entries is that of the
/// identity permutation `0..n` is a bijection on `0..n` — right length, every
/// entry in range, no entry twice, no value missing.
pub proof fn lemma_permutation_law(ids: Seq<u32>, n: int)
    requires
        0 <= n <= 0x1_0000_0000,
        ids.to_multiset() == ident_seq(n).to_multiset(),
    ensures
        ids.len() == n,
        forall|j: int| 0 <= j < n ==> (#[trigger] ids[j] as int) < n,
        forall|j1: int, j2: int| 0 <= j1 < j2 < n ==> ids[j1] != ids[j2],
        forall|v: u32| (v as int) < n ==> ids.contains(v),
{
    broadcast use vstd::multiset::group_multiset_axioms;
    ids.to_multiset_ensures();
    ident_seq(n).to_multiset_ensures();
    assert(ident_seq(n).len() == n);
    assert(ids.len() == n);
    assert forall|j: int| 0 <= j < n implies (#[trigger] ids[j] as int) < n by {
        assert(ids.contains(ids[j]));
        assert(ids.to_multiset().count(ids[j]) > 0);
        lemma_ident_count(n, ids[j]);
    }
    assert forall|j1: int, j2: int| 0 <= j1 < j2 < n implies ids[j1] != ids[j2] by {
        if ids[j1] == ids[j2] {
            lemma_two_positions(ids, j1, j2);
            lemma_ident_count(n, ids[j1]);
        }
    }
    assert forall|v: u32| (v as int) < n implies ids.contains(v) by {
        lemma_ident_count(n, v);
        assert(ids.to_multiset().count(v) == 1);
    }
}

/// The linear scan's running state is sound, never worse than the state it
/// started from, and never worse than any real hit among the triangles
/// scanned so far.
pub proof fn lemma_scan_nearest(
    tris: Seq<Triangle>,
    o: Point,
    d: Point,
    tn0: int,
    td0: int,
    p0: u32,
    j: int,
)
    requires
        wf_rat(tn0, td0),
        j <= tris.len(),
        tris.len() <= 0xffff_ffff,
    ensures
        ({
            let s = scan_state(tris, o, d, tn0, td0, p0, j);
            &&& wf_rat(s.0, s.1)
            &&& rat_le(s.0, s.1, tn0, td0)
            &&& result_sound(tris, o, d, tn0, td0, p0, s.0, s.1, s.2)
            &&& forall|k: int|
                0 <= k < j && k < tris.len() && spec_hits(#[trigger] tris[k], o, d)
                    ==> rat_le(s.0, s.1, spec_t_num(tris[k], o, d), spec_det(tris[k], d))
        }),
    decreases j,
{
    if j <= 0 {
    } else {
        lemma_scan_nearest(tris, o, d, tn0, td0, p0, j - 1);
        let prev = scan_state(tris, o, d, tn0, td0, p0, j - 1);
        let s = scan_state(tris, o, d, tn0, td0, p0, j);
        let t = tris[j - 1];
        if spec_commits(t, o, d, prev.0, prev.1) {
            if !(prev.0 == tn0 && prev.1 == td0 && prev.2 == p0) {
                crate::ray::lemma_rat_lt_trans(s.0, s.1, prev.0, prev.1, tn0, td0);
            }
            lemma_rat_le_trans(s.0, s.1, prev.0, prev.1, tn0, td0);
            assert forall|k: int|
                0 <= k < j && k < tris.len() && spec_hits(#[trigger] tris[k], o, d)
                    implies rat_le(s.0, s.1, spec_t_num(tris[k], o, d), spec_det(tris[k], d)) by {
                if k < j - 1 {
                    lemma_rat_le_trans(
                        s.0, s.1, prev.0, prev.1,
                        spec_t_num(tris[k], o, d), spec_det(tris[k], d),
                    );
                }
            }
        }
    }
}

/// Consistency law, soundness direction: any sound traversal outcome is no
/// nearer than the nearest hit that the brute-force linear scan over all
/// triangles reports from the same starting state.  (The scan can only be
/// nearer or equal; that the traversal also finds the scan's exact hit is
/// checked by the test suite on concrete scenes.)
pub proof fn lemma_scan_not_beaten(
    tris: Seq<Triangle>,
    o: Point,
    d: Point,
    tn0: int,
    td0: int,
    p0: u32,
    tn: int,
    td: int,
    p: u32,
)
    requires
        wf_rat(tn0, td0),
        tris.len() <= 0xffff_ffff,
        result_sound(tris, o, d, tn0, td0, p0, tn, td, p),
    ensures
        ({
            let s = scan_state(tris, o, d, tn0, td0, p0, tris.len() as int);
            rat_le(s.0, s.1, tn, td)
        }),
{
    lemma_scan_nearest(tris, o, d, tn0, td0, p0, tris.len() as int);
    let s = scan_state(tris, o, d, tn0, td0, p0, tris.len() as int);
    if tn == tn0 && td == td0 && p == p0 {
    } else {
        assert(spec_hits(tris[p as int], o, d));
    }
}


/// Consistency law: a traversal outcome that is sound (it reports a real
/// hit, or nothing) and complete (no real hit beats it) has exactly the
/// nearest-hit distance of the brute-force linear scan over all triangles,
/// as an equality of exact fractions.  `fast_intersect` ensures both sides
/// on a built structure, `intersect` computes the scan.  (The winning
/// primitive id can differ only between triangles hit at exactly the same
/// distance, where the visit order decides.)
pub proof fn lemma_consistency_law(
    tris: Seq<Triangle>,
    o: Point,
    d: Point,
    tn0: int,
    td0: int,
    p0: u32,
    tn: int,
    td: int,
    p: u32,
)
    requires
        wf_rat(tn0, td0),
        tris.len() <= 0xffff_ffff,
        result_sound(tris, o, d, tn0, td0, p0, tn, td, p),
        forall|id: u32|
            id < tris.len() && spec_hits(#[trigger] tris[id as int], o, d) ==> rat_le(
                tn, td, spec_t_num(tris[id as int], o, d), spec_det(tris[id as int], d),
            ),
    ensures
        ({
            let s = scan_state(tris, o, d, tn0, td0, p0, tris.len() as int);
            s.0 * td == tn * s.1
        }),
{
    let s = scan_state(tris, o, d, tn0, td0, p0, tris.len() as int);
    // The scan is at or below any sound outcome.
    lemma_scan_not_beaten(tris, o, d, tn0, td0, p0, tn, td, p);
    // The outcome is at or below the scan, which is itself either the
    // starting distance or some real hit.
    lemma_scan_nearest(tris, o, d, tn0, td0, p0, tris.len() as int);
    if s.0 == tn0 && s.1 == td0 && s.2 == p0 {
        assert(rat_le(tn, td, s.0, s.1));
    } else {
        assert(s.2 < tris.len() && spec_hits(tris[s.2 as int], o, d));
        assert(rat_le(tn, td, s.0, s.1));
    }
}

/// Node accounting: a subtree's slot block holds exactly two slots per
/// internal node, so a built pool of length `L` holds `(L - 2) / 2`
/// internal nodes — the root and the reserved slot beside it are the two
/// slots outside every block.
pub proof fn lemma_slot_accounting(
    nodes: Seq<BVHNode>,
    ids: Seq<u32>,
    tris: Seq<Triangle>,
    i: int,
    start: int,
    count: int,
    lo: int,
    hi: int,
)
    requires
        wf_subtree(nodes, ids, tris, i, start, count, lo, hi),
    ensures
        hi - lo == 2 * subtree_internal(nodes, i),
    decreases count,
{
    if nodes[i].count > 0 {
    } else {
        let c1 = subtree_count(nodes, lo);
        let mid = subtree_end(nodes, lo, lo + 2);
        assert(wf_split(nodes, ids, tris, i, start, count, lo, hi, c1, mid));
        lemma_slot_accounting(nodes, ids, tris, lo, start, c1, lo + 2, mid);
        lemma_slot_accounting(nodes, ids, tris, lo + 1, start + c1, count - c1, mid, hi);
    }
}
} // verus!
