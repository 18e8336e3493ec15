//! The bounding volume hierarchy: surface-area-heuristic build over a
//! working array of primitive records, a flattening into a pre-order linear
//! node array, and an iterative nearest-hit traversal with an explicit
//! stack.
//!
//! The linear array's shape is captured by recursive spec functions:
//! `lin_end` gives the index one past a subtree (pre-order places a subtree
//! contiguously), and `lin_lo`/`lin_hi` give the primitive index range a
//! subtree covers. `wf_tree` states the structural invariant, including
//! that every node's box is exactly the union of the boxes below it.

use vstd::prelude::*;
use vstd::multiset::Multiset;
use crate::fixed::{SCALE, COORD_MAX, abs_of, tdiv, lemma_mul_le};
use crate::vector::{Point3, vabs_le, axis_of};
use crate::ray::Ray;
use crate::bounds::{Bounds3, bounds_fits, bounds_empty, box_contains, union_of, contains_at,
    sa2_of};
use crate::hittable::{Hittable, Interaction, hittable_fits, hittable_hit_of,
    hittable_interaction_of, hittable_bound_of, ray_fits, zero_interaction, T_LIMIT,
    lemma_hit_range};

verus! {

/// What a linear node's offset field means: the start of its primitives for
/// a leaf, the array index of its second child for an interior node.
#[derive(Clone, Copy, Debug, PartialEq, Eq, Structural)]
pub enum BVHOffset {
    HittableOffset(usize),
    SecondChildOffset(usize),
}

/// One node of the flattened hierarchy. `num_hittable` is zero exactly for
/// interior nodes; an interior node's first child is the next array slot.
#[derive(Clone, Copy, Debug)]
pub struct LinearBVHNode {
    pub bounds: Bounds3,
    pub offset: BVHOffset,
    pub num_hittable: usize,
    pub axis: usize,
}

/// A transient build-tree node, held in an index-addressed arena; children
/// are arena indices, always smaller than the parent's (post-order).
#[derive(Clone, Copy, Debug)]
pub struct BVHBuildNode {
    pub bounds: Bounds3,
    pub split_axis: usize,
    pub first_hittable_offset: usize,
    pub num_hittable: usize,
    pub children: Option<(usize, usize)>,
}

/// A working record during the build: which primitive, its centroid, and
/// its box.
#[derive(Clone, Copy, Debug)]
pub struct BVHHittableInfo {
    pub hittable_number: usize,
    pub centroid: Point3,
    pub bounds: Bounds3,
}

/// The scene's primitives together with the hierarchy over them.
pub struct HittableList {
    pub objects: Vec<Hittable>,
    pub nodes: Vec<LinearBVHNode>,
}

/// The empty sentinel box, the fold's starting value.
pub open spec fn empty_box() -> Bounds3 {
    Bounds3 {
        p_min: Point3 { x: COORD_MAX, y: COORD_MAX, z: COORD_MAX },
        p_max: Point3 { x: (-COORD_MAX) as i64, y: (-COORD_MAX) as i64, z: (-COORD_MAX) as i64 },
    }
}

/// The union of the primitive boxes over `[a, b)`, folded left.
pub open spec fn fold_bounds(objs: Seq<Hittable>, a: int, b: int) -> Bounds3
    decreases b - a,
{
    if b <= a {
        empty_box()
    } else {
        union_of(fold_bounds(objs, a, b - 1), hittable_bound_of(objs[b - 1]))
    }
}

/// The union of the working records' boxes over `[a, b)`, folded left.
pub open spec fn fold_info_bounds(info: Seq<BVHHittableInfo>, a: int, b: int) -> Bounds3
    decreases b - a,
{
    if b <= a {
        empty_box()
    } else {
        union_of(fold_info_bounds(info, a, b - 1), info[b - 1].bounds)
    }
}

/// One past the last node of the subtree rooted at `i` in the pre-order
/// array.
pub open spec fn lin_end(nodes: Seq<LinearBVHNode>, i: int) -> int
    decreases nodes.len() - i,
{
    if 0 <= i < nodes.len() {
        match nodes[i].offset {
            BVHOffset::HittableOffset(_) => i + 1,
            BVHOffset::SecondChildOffset(rc) => {
                if i < rc < nodes.len() {
                    lin_end(nodes, rc as int)
                } else {
                    i + 1
                }
            },
        }
    } else {
        i + 1
    }
}

/// First primitive index the subtree rooted at `i` covers.
pub open spec fn lin_lo(nodes: Seq<LinearBVHNode>, i: int) -> int
    decreases nodes.len() - i,
{
    if 0 <= i < nodes.len() {
        match nodes[i].offset {
            BVHOffset::HittableOffset(o) => o as int,
            BVHOffset::SecondChildOffset(_) => lin_lo(nodes, i + 1),
        }
    } else {
        0
    }
}

/// One past the last primitive index the subtree rooted at `i` covers.
pub open spec fn lin_hi(nodes: Seq<LinearBVHNode>, i: int) -> int
    decreases nodes.len() - i,
{
    if 0 <= i < nodes.len() {
        match nodes[i].offset {
            BVHOffset::HittableOffset(o) => o + nodes[i].num_hittable,
            BVHOffset::SecondChildOffset(rc) => {
                if i < rc < nodes.len() {
                    lin_hi(nodes, rc as int)
                } else {
                    0
                }
            },
        }
    } else {
        0
    }
}

/// The structural invariant of a flattened subtree: a leaf's box is exactly
/// the union of its primitives' boxes, an interior node's box is exactly
/// the union of its children's, children sit at the next slot and at the
/// recorded second-child index, and the children's primitive ranges abut.
pub open spec fn wf_tree(nodes: Seq<LinearBVHNode>, objs: Seq<Hittable>, i: int) -> bool
    decreases nodes.len() - i,
{
    &&& 0 <= i < nodes.len()
    &&& bounds_fits(nodes[i].bounds)
    &&& 0 <= lin_lo(nodes, i)
    &&& lin_hi(nodes, i) <= objs.len()
    &&& forall|j: int| lin_lo(nodes, i) <= j < lin_hi(nodes, i)
        ==> box_contains(nodes[i].bounds, hittable_bound_of(#[trigger] objs[j]))
    &&& match nodes[i].offset {
        BVHOffset::HittableOffset(o) => {
            &&& nodes[i].num_hittable >= 1
            &&& o + nodes[i].num_hittable <= objs.len()
            &&& nodes[i].bounds == fold_bounds(objs, o as int, o + nodes[i].num_hittable)
        },
        BVHOffset::SecondChildOffset(rc) => {
            &&& nodes[i].num_hittable == 0
            &&& nodes[i].axis < 3
            &&& i + 1 < rc < nodes.len()
            &&& lin_end(nodes, i + 1) == rc
            &&& wf_tree(nodes, objs, i + 1)
            &&& wf_tree(nodes, objs, rc as int)
            &&& lin_lo(nodes, i + 1) < lin_hi(nodes, i + 1)
            &&& lin_hi(nodes, i + 1) == lin_lo(nodes, rc as int)
            &&& lin_lo(nodes, rc as int) < lin_hi(nodes, rc as int)
            &&& nodes[i].bounds == union_of(nodes[i + 1].bounds, nodes[rc as int].bounds)
        },
    }
}

/// The whole structure is well formed: every primitive fits, the node array
/// is one well-formed tree, and the root covers exactly the primitive
/// array.
pub open spec fn wf_list(l: HittableList) -> bool {
    &&& forall|j: int| 0 <= j < l.objects@.len() ==> hittable_fits(#[trigger] l.objects@[j])
    &&& l.nodes@.len() >= 1
    &&& wf_tree(l.nodes@, l.objects@, 0)
    &&& lin_lo(l.nodes@, 0) == 0
    &&& lin_hi(l.nodes@, 0) == l.objects@.len()
    &&& lin_end(l.nodes@, 0) == l.nodes@.len()
}

/// A subtree's extent is positive and stays inside the array.
pub proof fn lemma_wf_extent(nodes: Seq<LinearBVHNode>, objs: Seq<Hittable>, i: int)
    requires
        wf_tree(nodes, objs, i),
    ensures
        i < lin_end(nodes, i) <= nodes.len(),
        0 <= lin_lo(nodes, i) <= lin_hi(nodes, i) <= objs.len(),
    decreases nodes.len() - i,
{
    match nodes[i].offset {
        BVHOffset::HittableOffset(_) => {},
        BVHOffset::SecondChildOffset(rc) => {
            lemma_wf_extent(nodes, objs, i + 1);
            lemma_wf_extent(nodes, objs, rc as int);
        },
    }
}

/// Well-formedness of a subtree depends only on the node entries of that
/// subtree and the primitives below its range, so appending nodes or
/// primitives, or rewriting entries elsewhere, preserves it.
pub proof fn lemma_wf_frame(
    n1: Seq<LinearBVHNode>, n2: Seq<LinearBVHNode>,
    o1: Seq<Hittable>, o2: Seq<Hittable>, i: int)
    requires
        wf_tree(n1, o1, i),
        lin_end(n1, i) <= n2.len(),
        forall|k: int| i <= k < lin_end(n1, i) ==> n2[k] == #[trigger] n1[k],
        o2.len() >= o1.len(),
        forall|j: int| 0 <= j < o1.len() ==> o2[j] == #[trigger] o1[j],
    ensures
        wf_tree(n2, o2, i),
        lin_end(n2, i) == lin_end(n1, i),
        lin_lo(n2, i) == lin_lo(n1, i),
        lin_hi(n2, i) == lin_hi(n1, i),
    decreases n1.len() - i,
{
    lemma_wf_extent(n1, o1, i);
    assert(n2[i] == n1[i]);
    match n1[i].offset {
        BVHOffset::HittableOffset(o) => {
            lemma_fold_frame(o1, o2, o as int, o + n1[i].num_hittable);
        },
        BVHOffset::SecondChildOffset(rc) => {
            lemma_wf_extent(n1, o1, i + 1);
            lemma_wf_extent(n1, o1, rc as int);
            assert(lin_end(n1, i) == lin_end(n1, rc as int));
            assert forall|k: int| i + 1 <= k < lin_end(n1, i + 1)
                implies n2[k] == #[trigger] n1[k] by {
                assert(i <= k < lin_end(n1, i));
            }
            lemma_wf_frame(n1, n2, o1, o2, i + 1);
            assert forall|k: int| rc <= k < lin_end(n1, rc as int)
                implies n2[k] == #[trigger] n1[k] by {
                assert(i <= k < lin_end(n1, i));
            }
            lemma_wf_frame(n1, n2, o1, o2, rc as int);
        },
    }
    assert forall|j: int| lin_lo(n1, i) <= j < lin_hi(n1, i)
        implies box_contains(n2[i].bounds, hittable_bound_of(o2[j])) by {
        assert(box_contains(n1[i].bounds, hittable_bound_of(o1[j])));
        assert(o2[j] == o1[j]);
    }
}

/// The fold over a range reads only the entries of that range.
pub proof fn lemma_fold_frame(o1: Seq<Hittable>, o2: Seq<Hittable>, a: int, b: int)
    requires
        0 <= a,
        b <= o1.len(),
        o2.len() >= o1.len(),
        forall|j: int| 0 <= j < o1.len() ==> o2[j] == #[trigger] o1[j],
    ensures
        fold_bounds(o2, a, b) == fold_bounds(o1, a, b),
    decreases b - a,
{
    if b > a {
        lemma_fold_frame(o1, o2, a, b - 1);
        assert(o2[b - 1] == o1[b - 1]);
    }
}

/// The folded box contains every primitive box in its range.
pub proof fn lemma_fold_contains(objs: Seq<Hittable>, a: int, b: int, j: int)
    requires
        a <= j < b,
    ensures
        box_contains(fold_bounds(objs, a, b), hittable_bound_of(objs[j])),
    decreases b - a,
{
    if j < b - 1 {
        lemma_fold_contains(objs, a, b - 1, j);
    }
}

/// The folded box of in-range primitives stays in range.
pub proof fn lemma_fold_fits(objs: Seq<Hittable>, a: int, b: int)
    requires
        forall|j: int| a <= j < b ==> bounds_fits(hittable_bound_of(#[trigger] objs[j])),
    ensures
        bounds_fits(fold_bounds(objs, a, b)),
    decreases b - a,
{
    if b > a {
        lemma_fold_fits(objs, a, b - 1);
    }
}


/// Validity of one working record: it points at a primitive, and carries
/// that primitive's box and an in-range centroid.
pub open spec fn info_item_ok(it: BVHHittableInfo, objs: Seq<Hittable>) -> bool {
    &&& (it.hittable_number as int) < objs.len()
    &&& it.bounds == hittable_bound_of(objs[it.hittable_number as int])
    &&& bounds_fits(it.bounds)
    &&& !bounds_empty(it.bounds)
    &&& vabs_le(it.centroid, COORD_MAX as int)
}

pub open spec fn info_ok(info: Seq<BVHHittableInfo>, objs: Seq<Hittable>) -> bool {
    forall|k: int| 0 <= k < info.len() ==> info_item_ok(#[trigger] info[k], objs)
}

/// The point lies inside the box, componentwise.
pub open spec fn point_in_box(b: Bounds3, p: Point3) -> bool {
    &&& b.p_min.x <= p.x <= b.p_max.x
    &&& b.p_min.y <= p.y <= b.p_max.y
    &&& b.p_min.z <= p.z <= b.p_max.z
}

/// The surface-area measure of an in-range box is nonnegative and bounded.
proof fn lemma_sa2_bound(b: Bounds3)
    requires
        bounds_fits(b),
    ensures
        0 <= sa2_of(b) < 0x80000000000000000,
{
    if !bounds_empty(b) {
        let dx = b.p_max.x - b.p_min.x;
        let dy = b.p_max.y - b.p_min.y;
        let dz = b.p_max.z - b.p_min.z;
        assert(0 <= dx * dy <= 0x100000000 * 0x100000000) by (nonlinear_arith)
            requires 0 <= dx <= 0x100000000, 0 <= dy <= 0x100000000,
        ;
        assert(0 <= dx * dz <= 0x100000000 * 0x100000000) by (nonlinear_arith)
            requires 0 <= dx <= 0x100000000, 0 <= dz <= 0x100000000,
        ;
        assert(0 <= dy * dz <= 0x100000000 * 0x100000000) by (nonlinear_arith)
            requires 0 <= dy <= 0x100000000, 0 <= dz <= 0x100000000,
        ;
    }
}

/// Union of the records' boxes over `[start, end)`.
fn fold_range_bounds(info: &Vec<BVHHittableInfo>, start: usize, end: usize)
    -> (r: Bounds3)
    requires
        start <= end <= info@.len(),
        forall|k: int| 0 <= k < info@.len() ==> bounds_fits((#[trigger] info@[k]).bounds),
    ensures
        r == fold_info_bounds(info@, start as int, end as int),
        bounds_fits(r),
{
    let mut bounds = Bounds3::default();
    let mut i = start;
    while i < end
        invariant
            start <= i <= end <= info@.len(),
            bounds == fold_info_bounds(info@, start as int, i as int),
            bounds_fits(bounds),
            forall|k: int| 0 <= k < info@.len() ==> bounds_fits((#[trigger] info@[k]).bounds),
        decreases end - i,
    {
        bounds = Bounds3::union(&bounds, &info[i].bounds);
        i += 1;
    }
    bounds
}

/// Union of the records' centroids over `[start, end)`: a box containing
/// every centroid of the range.
fn centroid_bounds_range(info: &Vec<BVHHittableInfo>, start: usize, end: usize)
    -> (r: Bounds3)
    requires
        start <= end <= info@.len(),
        forall|k: int| 0 <= k < info@.len()
            ==> vabs_le((#[trigger] info@[k]).centroid, COORD_MAX as int),
    ensures
        bounds_fits(r),
        forall|k: int| start <= k < end ==> point_in_box(r, (#[trigger] info@[k]).centroid),
{
    let mut cb = Bounds3::default();
    let mut i = start;
    while i < end
        invariant
            start <= i <= end <= info@.len(),
            bounds_fits(cb),
            forall|k: int| 0 <= k < info@.len()
                ==> vabs_le((#[trigger] info@[k]).centroid, COORD_MAX as int),
            forall|k: int| start <= k < i ==> point_in_box(cb, (#[trigger] info@[k]).centroid),
        decreases end - i,
    {
        cb = Bounds3::union_point(&cb, &info[i].centroid);
        i += 1;
    }
    cb
}

/// Append the primitives the records of `[start, end)` point at, in record
/// order, so the appended run's folded box is the range's folded box.
fn append_range(
    objects: &Vec<Hittable>, info: &Vec<BVHHittableInfo>,
    start: usize, end: usize, ordered: &mut Vec<Hittable>)
    requires
        start <= end <= info@.len(),
        info_ok(info@, objects@),
        old(ordered)@.len() + (end - start) <= objects@.len(),
        forall|k: int| 0 <= k < objects@.len() ==> hittable_fits(#[trigger] objects@[k]),
        forall|k: int| 0 <= k < old(ordered)@.len()
            ==> hittable_fits(#[trigger] old(ordered)@[k]),
    ensures
        final(ordered)@.len() == old(ordered)@.len() + (end - start),
        forall|k: int| 0 <= k < old(ordered)@.len()
            ==> final(ordered)@[k] == #[trigger] old(ordered)@[k],
        forall|k: int| 0 <= k < final(ordered)@.len()
            ==> hittable_fits(#[trigger] final(ordered)@[k]),
        fold_bounds(final(ordered)@, old(ordered)@.len() as int, final(ordered)@.len() as int)
            == fold_info_bounds(info@, start as int, end as int),
        forall|k: int| start <= k < end
            ==> final(ordered)@[old(ordered)@.len() + (k - start)]
                == objects@[(#[trigger] info@[k]).hittable_number as int],
{
    let first = ordered.len();
    let mut i = start;
    while i < end
        invariant
            start <= i <= end <= info@.len(),
            info_ok(info@, objects@),
            first + (i - start) == ordered@.len(),
            ordered@.len() + (end - i) <= objects@.len(),
            forall|k: int| 0 <= k < objects@.len() ==> hittable_fits(#[trigger] objects@[k]),
            forall|k: int| 0 <= k < first ==> ordered@[k] == #[trigger] old(ordered)@[k],
            forall|k: int| 0 <= k < ordered@.len()
                ==> hittable_fits(#[trigger] ordered@[k]),
            fold_bounds(ordered@, first as int, ordered@.len() as int)
                == fold_info_bounds(info@, start as int, i as int),
            forall|k: int| start <= k < i
                ==> ordered@[first + (k - start)]
                    == objects@[(#[trigger] info@[k]).hittable_number as int],
        decreases end - i,
    {
        let ghost pre = ordered@;
        let num = info[i].hittable_number;
        ordered.push(objects[num]);
        proof {
            lemma_fold_frame(pre, ordered@, first as int, pre.len() as int);
            assert(ordered@[pre.len() as int] == objects@[num as int]);
            assert(info_item_ok(info@[i as int], objects@));
        }
        i += 1;
    }
}

/// The range is partitioned about a bucket boundary: every record before
/// the split point falls in a bucket at or below the boundary, every record
/// from the split point on falls above it.
pub open spec fn splits_at_bucket(
    info: Seq<BVHHittableInfo>, start: int, m: int, end: int, dimension: int,
    cmn: int, cmx: int, cut: int) -> bool {
    &&& forall|k: int| start <= k < m
        ==> bucket_of_spec(axis_of((#[trigger] info[k]).centroid, dimension), cmn, cmx) <= cut
    &&& forall|k: int| m <= k < end
        ==> bucket_of_spec(axis_of((#[trigger] info[k]).centroid, dimension), cmn, cmx) > cut
}

/// The bucket a centroid coordinate falls in when the extent is cut into
/// twelve equal cells; the far edge folds into the last cell.
pub open spec fn bucket_of_spec(c: int, mn: int, mx: int) -> int {
    let q = (12 * (c - mn)) / (mx - mn);
    if q >= 12 { 11 } else { q }
}

fn bucket_of(c: i64, mn: i64, mx: i64) -> (b: usize)
    requires
        mn < mx,
        mn <= c <= mx,
        abs_of(mn as int) <= COORD_MAX as int,
        abs_of(mx as int) <= COORD_MAX as int,
    ensures
        b == bucket_of_spec(c as int, mn as int, mx as int),
        b < 12,
{
    let num: u64 = 12 * ((c - mn) as u64);
    let den: u64 = (mx - mn) as u64;
    let q = num / den;
    proof {
        vstd::arithmetic::div_mod::lemma_div_is_ordered(num as int, 12 * (mx as int - mn as int), den as int);
        vstd::arithmetic::div_mod::lemma_div_multiples_vanish(12, den as int);
    }
    if q >= 12 {
        11
    } else {
        q as usize
    }
}


/// Order two records by centroid on the given axis, swapping when the
/// earlier one is greater.
fn cswap(info: &mut Vec<BVHHittableInfo>, a: usize, b: usize, dimension: usize,
    objs: Ghost<Seq<Hittable>>)
    requires
        a < b < old(info)@.len(),
        dimension < 3,
        info_ok(old(info)@, objs@),
    ensures
        final(info)@.len() == old(info)@.len(),
        info_ok(final(info)@, objs@),
        forall|k: int| 0 <= k < old(info)@.len() && k != a && k != b
            ==> final(info)@[k] == #[trigger] old(info)@[k],
        final(info)@ == old(info)@
            || final(info)@ == old(info)@
                .update(a as int, old(info)@[b as int])
                .update(b as int, old(info)@[a as int]),
        axis_of(final(info)@[a as int].centroid, dimension as int)
            <= axis_of(final(info)@[b as int].centroid, dimension as int),
{
    let ca = info[a].centroid.axis(dimension);
    let cb = info[b].centroid.axis(dimension);
    if ca > cb {
        let ta = info[a];
        let tb = info[b];
        info[a] = tb;
        info[b] = ta;
    }
}

/// Swapping two entries of a range leaves the range's multiset unchanged.
proof fn lemma_swap_range_ms(
    s1: Seq<BVHHittableInfo>, s2: Seq<BVHHittableInfo>, lo: int, hi: int, a: int, b: int)
    requires
        0 <= lo <= a < b < hi <= s1.len(),
        s2 == s1.update(a, s1[b]).update(b, s1[a]),
    ensures
        s2.len() == s1.len(),
        s2.subrange(lo, hi).to_multiset() == s1.subrange(lo, hi).to_multiset(),
{
    broadcast use vstd::seq_lib::lemma_multiset_commutative;
    broadcast use vstd::seq_lib::group_to_multiset_ensures;
    broadcast use vstd::multiset::group_multiset_axioms;

    let p0 = s1.subrange(lo, a);
    let e1 = seq![s1[a]];
    let p1 = s1.subrange(a + 1, b);
    let e2 = seq![s1[b]];
    let p2 = s1.subrange(b + 1, hi);
    assert(s1.subrange(lo, hi) =~= p0 + e1 + p1 + e2 + p2);
    assert(s2.subrange(lo, hi) =~= p0 + e2 + p1 + e1 + p2);
    assert(s1.subrange(lo, hi).to_multiset()
        =~= p0.to_multiset().add(e1.to_multiset()).add(p1.to_multiset())
            .add(e2.to_multiset()).add(p2.to_multiset()));
    assert(s2.subrange(lo, hi).to_multiset()
        =~= p0.to_multiset().add(e2.to_multiset()).add(p1.to_multiset())
            .add(e1.to_multiset()).add(p2.to_multiset()));
    assert(s2.subrange(lo, hi).to_multiset() =~= s1.subrange(lo, hi).to_multiset());
}

/// Median ordering for a range of at most three records: pairwise swaps by
/// centroid on the axis, an incomparable-free integer comparison. The range
/// comes out sorted by centroid along the axis — so the element at the
/// median index sits between its neighbours — and keeps its records: the
/// range's multiset is unchanged. A pair of equal centroids stays in its
/// arrival order.
fn sort_by_axis(info: &mut Vec<BVHHittableInfo>, start: usize, end: usize, dimension: usize,
    objs: Ghost<Seq<Hittable>>)
    requires
        start < end <= old(info)@.len(),
        end - start <= 3,
        dimension < 3,
        info_ok(old(info)@, objs@),
    ensures
        final(info)@.len() == old(info)@.len(),
        info_ok(final(info)@, objs@),
        forall|k: int| 0 <= k < old(info)@.len() && !(start <= k < end)
            ==> final(info)@[k] == #[trigger] old(info)@[k],
        final(info)@.subrange(start as int, end as int).to_multiset()
            == old(info)@.subrange(start as int, end as int).to_multiset(),
        forall|k1: int, k2: int|
            #![trigger final(info)@[k1], final(info)@[k2]]
            start <= k1 <= k2 < end
            ==> axis_of(final(info)@[k1].centroid, dimension as int)
                <= axis_of(final(info)@[k2].centroid, dimension as int),
{
    if end - start >= 2 {
        let ghost s0 = info@;
        cswap(info, start, start + 1, dimension, objs);
        proof {
            lemma_cswap_ms(s0, info@, start as int, end as int, start as int, start as int + 1);
        }
        if end - start == 3 {
            let ghost s1 = info@;
            cswap(info, start + 1, start + 2, dimension, objs);
            proof {
                lemma_cswap_ms(s1, info@, start as int, end as int,
                    start as int + 1, start as int + 2);
            }
            let ghost s2 = info@;
            cswap(info, start, start + 1, dimension, objs);
            proof {
                lemma_cswap_ms(s2, info@, start as int, end as int,
                    start as int, start as int + 1);
                // The last swap orders the first pair; the last element is
                // untouched and already bounds whichever record the middle
                // slot now holds.
                assert(info@[start as int + 2] == s2[start as int + 2]);
                assert(axis_of(info@[start as int + 1].centroid, dimension as int)
                    <= axis_of(info@[start as int + 2].centroid, dimension as int)) by {
                    assert(s2[start as int] == s1[start as int]);
                    if info@[start as int + 1] == s2[start as int + 1] {
                    } else {
                        assert(info@[start as int + 1] == s2[start as int]);
                        if s2[start as int + 2] == s1[start as int + 2] {
                            assert(s2[start as int + 1] == s1[start as int + 1]);
                        } else {
                            assert(s2[start as int + 2] == s1[start as int + 1]);
                        }
                    }
                }
            }
        }
    }
}

/// A swap step preserves the surrounding range's multiset.
proof fn lemma_cswap_ms(
    s1: Seq<BVHHittableInfo>, s2: Seq<BVHHittableInfo>, lo: int, hi: int, a: int, b: int)
    requires
        0 <= lo <= a < b < hi <= s1.len(),
        s2 == s1 || s2 == s1.update(a, s1[b]).update(b, s1[a]),
    ensures
        s2.len() == s1.len(),
        s2.subrange(lo, hi).to_multiset() == s1.subrange(lo, hi).to_multiset(),
{
    if s2 == s1 {
    } else {
        lemma_swap_range_ms(s1, s2, lo, hi, a, b);
    }
}


/// Surface-area-heuristic split of a record range: bin the centroids into
/// twelve buckets along the axis, cost each of the eleven boundaries as
/// `traversal + hit * (n1*SA1 + n2*SA2) / SA`, with traversal cost 0.9 and
/// hit cost 1 carried as exact integer multiples of ten, and either report
/// the partition point of the cheapest boundary or, when keeping the range
/// as one leaf is no dearer and the range is small enough, report no split.
fn sah_split(info: &mut Vec<BVHHittableInfo>, start: usize, end: usize, dimension: usize,
    centroid_bounds: &Bounds3, total_bounds: &Bounds3, objs: Ghost<Seq<Hittable>>)
    -> (r: Option<usize>)
    requires
        start + 4 <= end,
        end <= old(info)@.len(),
        old(info)@.len() <= 0x1000000,
        dimension < 3,
        info_ok(old(info)@, objs@),
        bounds_fits(*centroid_bounds),
        bounds_fits(*total_bounds),
        axis_of(centroid_bounds.p_min, dimension as int)
            < axis_of(centroid_bounds.p_max, dimension as int),
        forall|k: int| start <= k < end
            ==> point_in_box(*centroid_bounds, (#[trigger] old(info)@[k]).centroid),
    ensures
        final(info)@.len() == old(info)@.len(),
        info_ok(final(info)@, objs@),
        forall|k: int| 0 <= k < old(info)@.len() && !(start <= k < end)
            ==> final(info)@[k] == #[trigger] old(info)@[k],
        final(info)@.subrange(start as int, end as int).to_multiset()
            == old(info)@.subrange(start as int, end as int).to_multiset(),
        match r {
            Some(m) => start < m < end
                && (final(info)@ == old(info)@
                    || exists|cut: int| 0 <= cut < 11
                        && #[trigger] splits_at_bucket(final(info)@, start as int, m as int,
                            end as int, dimension as int,
                            axis_of(centroid_bounds.p_min, dimension as int),
                            axis_of(centroid_bounds.p_max, dimension as int), cut)),
            None => final(info)@ == old(info)@ && end - start <= 255,
        },
{
    let cmn = centroid_bounds.p_min.axis(dimension);
    let cmx = centroid_bounds.p_max.axis(dimension);

    let mut counts: Vec<usize> = Vec::new();
    let mut boxes: Vec<Bounds3> = Vec::new();
    let mut w: usize = 0;
    while w < 12
        invariant
            counts@.len() == w as int,
            boxes@.len() == w as int,
            w <= 12,
            forall|j: int| 0 <= j < w ==> #[trigger] counts@[j] == 0,
            forall|j: int| 0 <= j < w ==> bounds_fits(#[trigger] boxes@[j]),
        decreases 12 - w,
    {
        counts.push(0);
        boxes.push(Bounds3::default());
        w += 1;
    }

    let mut i = start;
    while i < end
        invariant
            start <= i <= end <= info@.len(),
            info@.len() <= 0x1000000,
            info@ == old(info)@,
            dimension < 3,
            cmn == axis_of(centroid_bounds.p_min, dimension as int),
            cmx == axis_of(centroid_bounds.p_max, dimension as int),
            cmn < cmx,
            bounds_fits(*centroid_bounds),
            info_ok(info@, objs@),
            forall|k: int| start <= k < end
                ==> point_in_box(*centroid_bounds, (#[trigger] info@[k]).centroid),
            counts@.len() == 12,
            boxes@.len() == 12,
            forall|j: int| 0 <= j < 12 ==> #[trigger] counts@[j] <= i - start,
            forall|j: int| 0 <= j < 12 ==> bounds_fits(#[trigger] boxes@[j]),
        decreases end - i,
    {
        let c = info[i].centroid.axis(dimension);
        proof {
            assert(point_in_box(*centroid_bounds, info@[i as int].centroid));
            assert(info_item_ok(info@[i as int], objs@));
            assert(abs_of(cmn as int) <= COORD_MAX as int && abs_of(cmx as int) <= COORD_MAX as int);
        }
        let b = bucket_of(c, cmn, cmx);
        let cnt = counts[b];
        counts[b] = cnt + 1;
        let bb = Bounds3::union(&boxes[b], &info[i].bounds);
        boxes[b] = bb;
        i += 1;
    }

    // Cost each of the eleven boundaries; track the cheapest.
    let mut min_bucket: usize = 0;
    let mut min_v: i128 = 0;
    let mut ci: usize = 0;
    while ci < 11
        invariant
            counts@.len() == 12,
            boxes@.len() == 12,
            end <= info@.len() <= 0x1000000,
            start + 4 <= end,
            forall|j: int| 0 <= j < 12 ==> #[trigger] counts@[j] <= end - start,
            forall|j: int| 0 <= j < 12 ==> bounds_fits(#[trigger] boxes@[j]),
            ci <= 11,
            ci == 0 ==> min_bucket == 0 && min_v == 0,
            ci > 0 ==> min_bucket < ci,
            ci > 0 ==> abs_of(min_v as int) <= 0x100000000000000000000000000,
        decreases 11 - ci,
    {
        let mut b1 = Bounds3::default();
        let mut b2 = Bounds3::default();
        let mut count1: usize = 0;
        let mut count2: usize = 0;
        let mut j: usize = 0;
        while j <= ci
            invariant
                counts@.len() == 12,
                boxes@.len() == 12,
                ci < 11,
                j <= ci + 1,
                end - start <= 0x1000000,
                forall|jj: int| 0 <= jj < 12 ==> #[trigger] counts@[jj] <= end - start,
                forall|jj: int| 0 <= jj < 12 ==> bounds_fits(#[trigger] boxes@[jj]),
                count1 <= j * 0x1000000,
                bounds_fits(b1),
            decreases ci + 1 - j,
        {
            b1 = Bounds3::union(&b1, &boxes[j]);
            count1 = count1 + counts[j];
            j += 1;
        }
        let mut j2: usize = ci + 1;
        while j2 < 12
            invariant
                counts@.len() == 12,
                boxes@.len() == 12,
                ci < 11,
                ci + 1 <= j2 <= 12,
                end - start <= 0x1000000,
                forall|jj: int| 0 <= jj < 12 ==> #[trigger] counts@[jj] <= end - start,
                forall|jj: int| 0 <= jj < 12 ==> bounds_fits(#[trigger] boxes@[jj]),
                count2 <= j2 * 0x1000000,
                bounds_fits(b2),
            decreases 12 - j2,
        {
            b2 = Bounds3::union(&b2, &boxes[j2]);
            count2 = count2 + counts[j2];
            j2 += 1;
        }
        let sa1 = b1.surface_area2();
        let sa2 = b2.surface_area2();
        proof {
            lemma_sa2_bound(b1);
            lemma_sa2_bound(b2);
            lemma_mul_le(count1 as int, sa1 as int, 0xc000000, 0x80000000000000000);
            lemma_mul_le(count2 as int, sa2 as int, 0xc000000, 0x80000000000000000);
        }
        let v = count1 as i128 * sa1 + count2 as i128 * sa2;
        if ci == 0 || v < min_v {
            min_bucket = ci;
            min_v = v;
        }
        ci += 1;
    }

    let sa_total = total_bounds.surface_area2();
    let nh = end - start;
    proof {
        lemma_sa2_bound(*total_bounds);
        lemma_mul_le(10 * nh as int, sa_total as int, 0xa000000, 0x80000000000000000);
    }
    let split = nh > 255 || 9 * sa_total + 10 * min_v < 10 * nh as i128 * sa_total;
    if !split {
        return None;
    }

    // Partition by bucket membership about the cheapest boundary.
    let mut left: Vec<BVHHittableInfo> = Vec::new();
    let mut right: Vec<BVHHittableInfo> = Vec::new();
    proof {
        broadcast use vstd::seq_lib::group_to_multiset_ensures;
        broadcast use vstd::multiset::group_multiset_axioms;
        assert(info@.subrange(start as int, start as int)
            =~= Seq::<BVHHittableInfo>::empty());
        assert(Seq::<BVHHittableInfo>::empty().to_multiset()
            =~= Multiset::<BVHHittableInfo>::empty());
        assert(left@.to_multiset().add(right@.to_multiset())
            =~= Multiset::<BVHHittableInfo>::empty());
    }
    let mut k = start;
    while k < end
        invariant
            start <= k <= end <= info@.len(),
            info@ == old(info)@,
            dimension < 3,
            cmn == axis_of(centroid_bounds.p_min, dimension as int),
            cmx == axis_of(centroid_bounds.p_max, dimension as int),
            cmn < cmx,
            bounds_fits(*centroid_bounds),
            info_ok(info@, objs@),
            forall|kk: int| start <= kk < end
                ==> point_in_box(*centroid_bounds, (#[trigger] info@[kk]).centroid),
            left@.len() + right@.len() == k - start,
            forall|kk: int| 0 <= kk < left@.len()
                ==> info_item_ok(#[trigger] left@[kk], objs@),
            forall|kk: int| 0 <= kk < right@.len()
                ==> info_item_ok(#[trigger] right@[kk], objs@),
            min_bucket < 11,
            forall|kk: int| 0 <= kk < left@.len()
                ==> bucket_of_spec(axis_of((#[trigger] left@[kk]).centroid, dimension as int),
                    cmn as int, cmx as int) <= min_bucket,
            forall|kk: int| 0 <= kk < right@.len()
                ==> bucket_of_spec(axis_of((#[trigger] right@[kk]).centroid, dimension as int),
                    cmn as int, cmx as int) > min_bucket,
            left@.to_multiset().add(right@.to_multiset())
                == info@.subrange(start as int, k as int).to_multiset(),
        decreases end - k,
    {
        proof {
            assert(point_in_box(*centroid_bounds, info@[k as int].centroid));
            assert(info_item_ok(info@[k as int], objs@));
        }
        let ghost pre_left = left@;
        let ghost pre_right = right@;
        let c = info[k].centroid.axis(dimension);
        let b = bucket_of(c, cmn, cmx);
        if b <= min_bucket {
            left.push(info[k]);
        } else {
            right.push(info[k]);
        }
        proof {
            lemma_partition_push(pre_left, pre_right, left@, right@, info@,
                start as int, k as int);
        }
        k += 1;
    }

    // A degenerate measure can put the whole range on one side; fall back
    // to the median index, which is still a valid split of the range.
    if left.len() == 0 || right.len() == 0 {
        return Some(start + (end - start) / 2);
    }

    let nl = left.len();
    let ghost pre_info = info@;
    let mut k2: usize = 0;
    while k2 < nl
        invariant
            nl == left@.len(),
            start + nl <= end <= info@.len(),
            k2 <= nl,
            info@.len() == old(info)@.len(),
            info_ok(info@, objs@),
            forall|kk: int| 0 <= kk < left@.len()
                ==> info_item_ok(#[trigger] left@[kk], objs@),
            forall|kk: int| 0 <= kk < info@.len() && !(start <= kk < end)
                ==> info@[kk] == #[trigger] old(info)@[kk],
            forall|kk: int| 0 <= kk < k2 ==> info@[start + kk] == #[trigger] left@[kk],
        decreases nl - k2,
    {
        info[start + k2] = left[k2];
        k2 += 1;
    }
    let nr = right.len();
    let mut k3: usize = 0;
    while k3 < nr
        invariant
            nr == right@.len(),
            nl == left@.len(),
            nl + nr == end - start,
            start + nl + nr == end,
            end <= info@.len(),
            k3 <= nr,
            info@.len() == old(info)@.len(),
            info_ok(info@, objs@),
            forall|kk: int| 0 <= kk < right@.len()
                ==> info_item_ok(#[trigger] right@[kk], objs@),
            forall|kk: int| 0 <= kk < info@.len() && !(start <= kk < end)
                ==> info@[kk] == #[trigger] old(info)@[kk],
            forall|kk: int| 0 <= kk < nl ==> info@[start + kk] == #[trigger] left@[kk],
            forall|kk: int| 0 <= kk < k3
                ==> info@[start + nl + kk] == #[trigger] right@[kk],
        decreases nr - k3,
    {
        info[start + nl + k3] = right[k3];
        k3 += 1;
    }
    proof {
        broadcast use vstd::seq_lib::lemma_multiset_commutative;
        assert(info@.subrange(start as int, end as int) =~= left@ + right@);
        assert(old(info)@.subrange(start as int, end as int)
            =~= pre_info.subrange(start as int, end as int));
        assert(info@.subrange(start as int, end as int).to_multiset()
            == old(info)@.subrange(start as int, end as int).to_multiset());
        assert(splits_at_bucket(info@, start as int, start as int + nl as int, end as int,
            dimension as int, cmn as int, cmx as int, min_bucket as int)) by {
            assert forall|kk: int| start <= kk < start + nl as int
                implies bucket_of_spec(
                    axis_of((#[trigger] info@[kk]).centroid, dimension as int),
                    cmn as int, cmx as int) <= min_bucket by {
                assert(info@[kk] == left@[kk - start]);
            }
            assert forall|kk: int| start + nl as int <= kk < end
                implies bucket_of_spec(
                    axis_of((#[trigger] info@[kk]).centroid, dimension as int),
                    cmn as int, cmx as int) > min_bucket by {
                assert(info@[kk] == right@[kk - start - nl]);
            }
        }
    }
    Some(start + nl)
}


/// Build one subtree over the records of `[start, end)`: compute the range
/// box, emit a leaf for a single record or a centroid-degenerate range,
/// otherwise split (median of up to three records, surface-area heuristic
/// beyond that) and recurse. Nodes are written in pre-order, each
/// interior node recording its second child's array index, so the array
/// that results is already the flattened form the traversal walks; the
/// primitives of every leaf land contiguously in `ordered`.
#[verifier::rlimit(100)]
fn recursive_build(
    objects: &Vec<Hittable>,
    info: &mut Vec<BVHHittableInfo>,
    start: usize, end: usize,
    total_nodes: &mut usize,
    ordered: &mut Vec<Hittable>,
    nodes: &mut Vec<LinearBVHNode>) -> (r: usize)
    requires
        info_ok(old(info)@, objects@),
        start < end <= old(info)@.len(),
        old(info)@.len() == objects@.len(),
        objects@.len() <= 0x1000000,
        forall|k: int| 0 <= k < objects@.len() ==> hittable_fits(#[trigger] objects@[k]),
        old(ordered)@.len() + (end - start) <= objects@.len(),
        forall|k: int| 0 <= k < old(ordered)@.len()
            ==> hittable_fits(#[trigger] old(ordered)@[k]),
        *old(total_nodes) == old(nodes)@.len(),
        old(nodes)@.len() + 2 * (end - start) <= 0x10000000,
    ensures
        r == old(nodes)@.len(),
        r < final(nodes)@.len(),
        final(nodes)@.len() <= old(nodes)@.len() + 2 * (end - start) - 1,
        forall|k: int| 0 <= k < r ==> final(nodes)@[k] == #[trigger] old(nodes)@[k],
        wf_tree(final(nodes)@, final(ordered)@, r as int),
        lin_end(final(nodes)@, r as int) == final(nodes)@.len() as int,
        lin_lo(final(nodes)@, r as int) == old(ordered)@.len() as int,
        lin_hi(final(nodes)@, r as int) == final(ordered)@.len() as int,
        final(ordered)@.len() == old(ordered)@.len() + (end - start),
        forall|k: int| 0 <= k < old(ordered)@.len()
            ==> final(ordered)@[k] == #[trigger] old(ordered)@[k],
        forall|k: int| 0 <= k < final(ordered)@.len()
            ==> hittable_fits(#[trigger] final(ordered)@[k]),
        final(info)@.len() == old(info)@.len(),
        info_ok(final(info)@, objects@),
        forall|k: int| 0 <= k < old(info)@.len() && !(start <= k < end)
            ==> final(info)@[k] == #[trigger] old(info)@[k],
        forall|k: int| start <= k < end
            ==> final(ordered)@[old(ordered)@.len() + (k - start)]
                == objects@[(#[trigger] final(info)@[k]).hittable_number as int],
        final(info)@.subrange(start as int, end as int).to_multiset()
            == old(info)@.subrange(start as int, end as int).to_multiset(),
        final(nodes)@[r as int].bounds
            == fold_info_bounds(old(info)@, start as int, end as int),
        *final(total_nodes) == final(nodes)@.len(),
    decreases end - start,
{
    let my = nodes.len();
    *total_nodes += 1;
    nodes.push(LinearBVHNode {
        bounds: Bounds3::default(),
        offset: BVHOffset::HittableOffset(0),
        num_hittable: 1,
        axis: 0,
    });
    let ghost n_push = nodes@;

    let bounds = fold_range_bounds(info, start, end);
    let num_hittables = end - start;

    if num_hittables == 1 {
        let first = ordered.len();
        append_range(objects, info, start, end, ordered);
        nodes[my] = LinearBVHNode {
            bounds,
            offset: BVHOffset::HittableOffset(first),
            num_hittable: num_hittables,
            axis: 0,
        };
        proof {
            lemma_leaf_wf(nodes@, ordered@, my as int, first as int, num_hittables as int);
        }
        my
    } else {
        let centroid_bounds = centroid_bounds_range(info, start, end);
        let dimension = centroid_bounds.maximum_extent();
        let cb_min = centroid_bounds.p_min.axis(dimension);
        let cb_max = centroid_bounds.p_max.axis(dimension);

        if cb_min == cb_max {
            // Every centroid coincides on the widest axis: no split can
            // separate them, so the whole range becomes one leaf.
            let first = ordered.len();
            append_range(objects, info, start, end, ordered);
            nodes[my] = LinearBVHNode {
                bounds,
                offset: BVHOffset::HittableOffset(first),
                num_hittable: num_hittables,
                axis: 0,
            };
            proof {
                lemma_leaf_wf(nodes@, ordered@, my as int, first as int, num_hittables as int);
            }
            my
        } else {
            let mut middle = start + (end - start) / 2;
            if num_hittables < 4 {
                sort_by_axis(info, start, end, dimension, Ghost(objects@));
            } else {
                proof {
                    assert(cb_min < cb_max);
                }
                match sah_split(info, start, end, dimension, &centroid_bounds, &bounds,
                    Ghost(objects@)) {
                    Some(m) => {
                        middle = m;
                    },
                    None => {
                        // Keeping the range as one leaf costs no more than
                        // the best split.
                        let first = ordered.len();
                        append_range(objects, info, start, end, ordered);
                        nodes[my] = LinearBVHNode {
                            bounds,
                            offset: BVHOffset::HittableOffset(first),
                            num_hittable: num_hittables,
                            axis: 0,
                        };
                        proof {
                            lemma_leaf_wf(nodes@, ordered@, my as int, first as int,
                                num_hittables as int);
                        }
                        return my;
                    },
                }
            }

            let ghost i_split = info@;
            let left_root = recursive_build(objects, info, start, middle,
                total_nodes, ordered, nodes);
            let ghost n_mid = nodes@;
            let ghost o_mid = ordered@;
            let ghost i_mid = info@;
            let right_root = recursive_build(objects, info, middle, end,
                total_nodes, ordered, nodes);
            let ghost n_right = nodes@;
            let ghost o_fin = ordered@;

            let bl = nodes[left_root].bounds;
            let br = nodes[right_root].bounds;
            nodes[my] = LinearBVHNode {
                bounds: Bounds3::union(&bl, &br),
                offset: BVHOffset::SecondChildOffset(right_root),
                num_hittable: 0,
                axis: dimension,
            };
            proof {
                let nf = nodes@;
                // The left subtree survives the right build's appends.
                assert forall|k: int| left_root <= k < lin_end(n_mid, left_root as int)
                    implies n_right[k] == #[trigger] n_mid[k] by {
                    assert(k < n_mid.len());
                }
                lemma_wf_frame(n_mid, n_right, o_mid, o_fin, left_root as int);
                // Both subtrees survive the parent patch.
                assert(nf == n_right.update(my as int, nf[my as int]));
                assert forall|k: int| left_root <= k < lin_end(n_right, left_root as int)
                    implies nf[k] == #[trigger] n_right[k] by {}
                lemma_wf_frame(n_right, nf, o_fin, o_fin, left_root as int);
                assert forall|k: int| right_root <= k < lin_end(n_right, right_root as int)
                    implies nf[k] == #[trigger] n_right[k] by {}
                lemma_wf_frame(n_right, nf, o_fin, o_fin, right_root as int);

                assert(left_root == my + 1);
                assert(lin_end(nf, my as int + 1) == right_root as int);
                assert(lin_lo(nf, my as int) == lin_lo(nf, my as int + 1));
                assert(lin_hi(nf, my as int) == lin_hi(nf, right_root as int));
                assert(lin_end(nf, my as int) == lin_end(nf, right_root as int));
                // The parent box contains everything both children contain.
                assert forall|j: int| lin_lo(nf, my as int) <= j < lin_hi(nf, my as int)
                    implies box_contains(nf[my as int].bounds,
                        hittable_bound_of(#[trigger] o_fin[j])) by {
                    if j < lin_hi(nf, my as int + 1) {
                        assert(box_contains(nf[my as int + 1].bounds,
                            hittable_bound_of(o_fin[j])));
                    } else {
                        assert(box_contains(nf[right_root as int].bounds,
                            hittable_bound_of(o_fin[j])));
                    }
                }
                assert(wf_tree(nf, o_fin, my as int));
                assert forall|k: int| 0 <= k < my implies nf[k] == #[trigger] old(nodes)@[k] by {
                    assert(n_push[k] == old(nodes)@[k]);
                    assert(n_mid[k] == n_push[k]);
                    assert(n_right[k] == n_mid[k]);
                    assert(nf[k] == n_right[k]);
                }
                // The working records of the range keep their multiset:
                // reordering for the split preserved it, and each child
                // preserved its own half while leaving the other alone.
                let ifin = info@;
                let sa = start as int;
                let sm = middle as int;
                let se = end as int;
                assert(i_split.subrange(sa, se).to_multiset()
                    == old(info)@.subrange(sa, se).to_multiset());
                lemma_range_ms_split(i_split, sa, sm, se);
                lemma_range_ms_split(i_mid, sa, sm, se);
                lemma_range_ms_split(ifin, sa, sm, se);
                assert(i_mid.subrange(sm, se) =~= i_split.subrange(sm, se));
                assert(ifin.subrange(sa, sm) =~= i_mid.subrange(sa, sm));
                assert(i_mid.subrange(sa, sm).to_multiset()
                    == i_split.subrange(sa, sm).to_multiset());
                assert(ifin.subrange(sm, se).to_multiset()
                    == i_mid.subrange(sm, se).to_multiset());
                assert(ifin.subrange(sa, se).to_multiset()
                    == old(info)@.subrange(sa, se).to_multiset());
                // The subtree's box is the union fold of the records it was
                // built over, which reordering cannot change.
                assert(nf[left_root as int] == n_mid[left_root as int]);
                lemma_subtree_bounds_from_old(old(info)@, i_split, i_mid, objects@,
                    sa, sm, se, nf[left_root as int].bounds, nf[right_root as int].bounds);
                assert(nf[my as int].bounds == fold_info_bounds(old(info)@, sa, se));
                assert forall|k: int| start <= k < end
                    implies o_fin[old(ordered)@.len() + (k - start)]
                        == objects@[(#[trigger] info@[k]).hittable_number as int] by {
                    if k < middle {
                        assert(info@[k] == i_mid[k]);
                        assert(o_mid[old(ordered)@.len() + (k - start)]
                            == objects@[i_mid[k].hittable_number as int]);
                        assert(o_fin[old(ordered)@.len() + (k - start)]
                            == o_mid[old(ordered)@.len() + (k - start)]);
                    } else {
                        assert(o_fin[o_mid.len() + (k - middle)]
                            == objects@[info@[k].hittable_number as int]);
                        assert(o_mid.len() + (k - middle)
                            == old(ordered)@.len() + (k - start));
                    }
                }
            }
            my
        }
    }
}

/// After a leaf write, the subtree at `my` is well formed: the stored box
/// equals the folded box of the appended primitives.
proof fn lemma_leaf_wf(
    nodes: Seq<LinearBVHNode>, ordered: Seq<Hittable>, my: int, first: int, num: int)
    requires
        0 <= my < nodes.len(),
        nodes[my].offset == BVHOffset::HittableOffset(first as usize),
        first == nodes[my].offset->HittableOffset_0,
        nodes[my].num_hittable == num,
        num >= 1,
        0 <= first,
        first + num == ordered.len(),
        nodes[my].bounds == fold_bounds(ordered, first, first + num),
        bounds_fits(nodes[my].bounds),
    ensures
        wf_tree(nodes, ordered, my),
        lin_end(nodes, my) == my + 1,
        lin_lo(nodes, my) == first,
        lin_hi(nodes, my) == first + num,
{
    assert forall|j: int| first <= j < first + num
        implies box_contains(nodes[my].bounds, hittable_bound_of(#[trigger] ordered[j])) by {
        lemma_fold_contains(ordered, first, first + num, j);
    }
}


/// The hit a single primitive reports for the query range.
pub open spec fn cand(objs: Seq<Hittable>, ray: Ray, t0: int, t1: int, j: int) -> Option<int> {
    hittable_hit_of(objs[j], ray, t0, t1)
}

/// Some primitive reports a hit in the range.
pub open spec fn some_hit(objs: Seq<Hittable>, ray: Ray, t0: int, t1: int) -> bool {
    exists|j: int| 0 <= j < objs.len() && #[trigger] cand(objs, ray, t0, t1, j) is Some
}

/// A reported hit satisfies the exact point-in-box inequalities for its
/// primitive's bound and lies in the query range.
proof fn lemma_cand_inside(h: Hittable, ray: Ray, t0: int, t1: int)
    ensures
        match hittable_hit_of(h, ray, t0, t1) {
            Some(v) => contains_at(hittable_bound_of(h), ray, v) && t0 <= v <= t1,
            None => true,
        },
{
}

/// A point inside an inner box is inside any box containing it.
proof fn lemma_contains_mono(outer: Bounds3, inner: Bounds3, ray: Ray, t: int)
    requires
        box_contains(outer, inner),
        contains_at(inner, ray, t),
    ensures
        contains_at(outer, ray, t),
{
    assert(outer.p_min.x * SCALE <= inner.p_min.x * SCALE
        && outer.p_min.y * SCALE <= inner.p_min.y * SCALE
        && outer.p_min.z * SCALE <= inner.p_min.z * SCALE
        && inner.p_max.x * SCALE <= outer.p_max.x * SCALE
        && inner.p_max.y * SCALE <= outer.p_max.y * SCALE
        && inner.p_max.z * SCALE <= outer.p_max.z * SCALE) by (nonlinear_arith)
        requires
            box_contains(outer, inner),
            SCALE as int > 0,
            outer.p_min.x <= inner.p_min.x,
            outer.p_min.y <= inner.p_min.y,
            outer.p_min.z <= inner.p_min.z,
            inner.p_max.x <= outer.p_max.x,
            inner.p_max.y <= outer.p_max.y,
            inner.p_max.z <= outer.p_max.z,
    ;
}

impl Default for HittableList {
    /// An empty scene with no hierarchy yet.
    fn default() -> (r: HittableList)
        ensures
            r.objects@.len() == 0,
            r.nodes@.len() == 0,
    {
        HittableList { objects: Vec::new(), nodes: Vec::new() }
    }
}

impl HittableList {
    /// Add a primitive to the scene; the hierarchy is built later, once.
    pub fn add(&mut self, object: Hittable)
        ensures
            final(self).objects@ == old(self).objects@.push(object),
            final(self).nodes@ == old(self).nodes@,
    {
        self.objects.push(object);
    }

    /// Exhaustive nearest-hit reference: test every primitive, shrinking
    /// the acceptable range to the closest hit so far. The result is the
    /// nearest hit in the whole range, and the hierarchy's traversal must
    /// agree with it.
    pub fn hit_linear(&self, ray: &Ray, t_min: i64, t_max: i64, interaction: &mut Interaction)
        -> (r: bool)
        requires
            forall|k: int| 0 <= k < self.objects@.len()
                ==> hittable_fits(#[trigger] self.objects@[k]),
            ray_fits(*ray),
            0 <= t_min <= t_max <= T_LIMIT,
        ensures
            r == some_hit(self.objects@, *ray, t_min as int, t_max as int),
            r ==> t_min <= final(interaction).t <= t_max,
            r ==> exists|j: int| 0 <= j < self.objects@.len()
                && #[trigger] cand(self.objects@, *ray, t_min as int, t_max as int, j)
                    == Some(final(interaction).t as int)
                && *final(interaction) == hittable_interaction_of(self.objects@[j], *ray,
                    final(interaction).t as int),
            r ==> forall|j: int| 0 <= j < self.objects@.len()
                ==> match #[trigger] cand(self.objects@, *ray, t_min as int, t_max as int, j) {
                    Some(v) => final(interaction).t <= v,
                    None => true,
                },
            !r ==> *final(interaction) == zero_interaction(),
            r ==> crate::vector::vabs_le(final(interaction).normal, 2 * SCALE as int),
            r ==> crate::vector::vabs_le(final(interaction).p, COORD_MAX as int + 1),
    {
        let ghost objs = self.objects@;
        let ghost t0 = t_min as int;
        let ghost t1 = t_max as int;
        let mut temp_interaction = Interaction::default();
        let mut hit_anything = false;
        let mut closest_so_far = t_max;
        let mut i: usize = 0;
        let n = self.objects.len();
        while i < n
            invariant
                n == objs.len(),
                objs == self.objects@,
                0 <= i <= n,
                forall|k: int| 0 <= k < objs.len() ==> hittable_fits(#[trigger] objs[k]),
                ray_fits(*ray),
                0 <= t_min <= closest_so_far <= t_max <= T_LIMIT,
                t0 == t_min as int,
                t1 == t_max as int,
                !hit_anything ==> closest_so_far == t_max
                    && temp_interaction == zero_interaction()
                    && forall|j: int| 0 <= j < i ==> #[trigger] cand(objs, *ray, t0, t1, j) is None,
                hit_anything ==> temp_interaction.t == closest_so_far
                    && crate::vector::vabs_le(temp_interaction.normal, 2 * SCALE as int)
                    && crate::vector::vabs_le(temp_interaction.p, COORD_MAX as int + 1)
                    && (exists|j: int| 0 <= j < i
                        && #[trigger] cand(objs, *ray, t0, t1, j) == Some(closest_so_far as int)
                        && temp_interaction == hittable_interaction_of(objs[j], *ray,
                            closest_so_far as int)),
                forall|j: int| 0 <= j < i
                    ==> match #[trigger] cand(objs, *ray, t0, t1, j) {
                        Some(v) => closest_so_far as int <= v,
                        None => true,
                    },
            decreases n - i,
        {
            let ghost pre_closest = closest_so_far;
            let h = self.objects[i];
            if h.hit(ray, t_min, closest_so_far, &mut temp_interaction) {
                hit_anything = true;
                closest_so_far = temp_interaction.t;
                proof {
                    lemma_hit_range(objs[i as int], *ray, t0, pre_closest as int, t1);
                    assert(cand(objs, *ray, t0, t1, i as int)
                        == hittable_hit_of(objs[i as int], *ray, t0, t1));
                }
            } else {
                proof {
                    lemma_hit_range(objs[i as int], *ray, t0, pre_closest as int, t1);
                    assert(cand(objs, *ray, t0, t1, i as int)
                        == hittable_hit_of(objs[i as int], *ray, t0, t1));
                }
            }
            i += 1;
        }
        *interaction = temp_interaction;
        hit_anything
    }
}


/// Total node count of the subtrees still to be visited: the traversal's
/// termination measure.
pub open spec fn stack_measure(nodes: Seq<LinearBVHNode>, st: Seq<usize>) -> int
    decreases st.len(),
{
    if st.len() == 0 {
        0
    } else {
        stack_measure(nodes, st.drop_last()) + (lin_end(nodes, st.last() as int) - st.last())
    }
}

proof fn lemma_sm_push(nodes: Seq<LinearBVHNode>, st: Seq<usize>, x: usize)
    ensures
        stack_measure(nodes, st.push(x))
            == stack_measure(nodes, st) + (lin_end(nodes, x as int) - x),
{
    assert(st.push(x).drop_last() =~= st);
    assert(st.push(x).last() == x);
}

proof fn lemma_sm_nonneg(nodes: Seq<LinearBVHNode>, objs: Seq<Hittable>, st: Seq<usize>)
    requires
        forall|k: int| 0 <= k < st.len() ==> wf_tree(nodes, objs, #[trigger] st[k] as int),
    ensures
        stack_measure(nodes, st) >= 0,
    decreases st.len(),
{
    if st.len() > 0 {
        lemma_wf_extent(nodes, objs, st.last() as int);
        assert forall|k: int| 0 <= k < st.drop_last().len()
            implies wf_tree(nodes, objs, #[trigger] st.drop_last()[k] as int) by {
            assert(st.drop_last()[k] == st[k]);
        }
        lemma_sm_nonneg(nodes, objs, st.drop_last());
    }
}

/// Primitive `j` lies under a subtree the traversal has still to visit.
pub open spec fn in_pending(nodes: Seq<LinearBVHNode>, st: Seq<usize>, cur: int, j: int) -> bool {
    ||| lin_lo(nodes, cur) <= j < lin_hi(nodes, cur)
    ||| exists|k: int| 0 <= k < st.len()
        && lin_lo(nodes, #[trigger] st[k] as int) <= j < lin_hi(nodes, st[k] as int)
}

/// The query is finished with primitive `j`: either it reports no hit in
/// the range, or a hit has been found and `j`'s is no nearer.
pub open spec fn settled_at(
    objs: Seq<Hittable>, ray: Ray, t0: int, t1: int, found: bool, closest: int, j: int) -> bool {
    match cand(objs, ray, t0, t1, j) {
        None => true,
        Some(v) => found && closest <= v,
    }
}

impl HittableList {
    /// Nearest-hit query through the hierarchy: an iterative pre-order
    /// descent with an explicit stack of deferred second children, visiting
    /// the near child first by the ray's sign on the split axis, and
    /// skipping any subtree whose box the slab test rejects against the
    /// shrinking `[t_min, closest]` range. The contract is the exhaustive
    /// scan's: the skipped subtrees can hide no nearer hit, because an
    /// accepted hit satisfies its primitive's box inequalities, every
    /// ancestor box contains that box, and the slab test is conservative.
    #[verifier::rlimit(100)]
    pub fn hit(&self, ray: &Ray, t_min: i64, t_max: i64, interaction: &mut Interaction)
        -> (r: bool)
        requires
            wf_list(*self),
            ray_fits(*ray),
            0 <= t_min <= t_max <= T_LIMIT,
        ensures
            r == some_hit(self.objects@, *ray, t_min as int, t_max as int),
            r ==> t_min <= final(interaction).t <= t_max,
            r ==> exists|j: int| 0 <= j < self.objects@.len()
                && #[trigger] cand(self.objects@, *ray, t_min as int, t_max as int, j)
                    == Some(final(interaction).t as int)
                && *final(interaction) == hittable_interaction_of(self.objects@[j], *ray,
                    final(interaction).t as int),
            r ==> forall|j: int| 0 <= j < self.objects@.len()
                ==> match #[trigger] cand(self.objects@, *ray, t_min as int, t_max as int, j) {
                    Some(v) => final(interaction).t <= v,
                    None => true,
                },
            !r ==> *final(interaction) == zero_interaction(),
            r ==> crate::vector::vabs_le(final(interaction).normal, 2 * SCALE as int),
            r ==> crate::vector::vabs_le(final(interaction).p, COORD_MAX as int + 1),
    {
        let ghost objs = self.objects@;
        let ghost nseq = self.nodes@;
        let ghost t0 = t_min as int;
        let ghost t1 = t_max as int;
        let dir_is_neg: [bool; 3] = [
            ray.direction.x < 0,
            ray.direction.y < 0,
            ray.direction.z < 0,
        ];
        let mut temp_interaction = Interaction::default();
        let mut hit_anything = false;
        let mut closest_so_far = t_max;
        let mut current_node_index: usize = 0;
        let mut nodes_to_visit: Vec<usize> = Vec::new();
        let n = self.objects.len();

        loop
            invariant
                objs == self.objects@,
                nseq == self.nodes@,
                n == objs.len(),
                t0 == t_min as int,
                t1 == t_max as int,
                wf_list(*self),
                ray_fits(*ray),
                dir_is_neg[0] == (ray.direction.x < 0),
                dir_is_neg[1] == (ray.direction.y < 0),
                dir_is_neg[2] == (ray.direction.z < 0),
                0 <= t_min <= closest_so_far <= t_max <= T_LIMIT,
                wf_tree(nseq, objs, current_node_index as int),
                forall|k: int| 0 <= k < nodes_to_visit@.len()
                    ==> wf_tree(nseq, objs, #[trigger] nodes_to_visit@[k] as int),
                forall|j: int| 0 <= j < n
                    && !in_pending(nseq, nodes_to_visit@, current_node_index as int, j)
                    ==> #[trigger] settled_at(objs, *ray, t0, t1, hit_anything,
                        closest_so_far as int, j),
                !hit_anything ==> closest_so_far == t_max
                    && temp_interaction == zero_interaction(),
                hit_anything ==> temp_interaction.t == closest_so_far
                    && crate::vector::vabs_le(temp_interaction.normal, 2 * SCALE as int)
                    && crate::vector::vabs_le(temp_interaction.p, COORD_MAX as int + 1)
                    && (exists|j: int| 0 <= j < n
                        && #[trigger] cand(objs, *ray, t0, t1, j)
                            == Some(closest_so_far as int)
                        && temp_interaction == hittable_interaction_of(objs[j], *ray,
                            closest_so_far as int)),
            ensures
                0 <= t_min <= closest_so_far <= t_max,
                forall|j: int| 0 <= j < n
                    ==> #[trigger] settled_at(objs, *ray, t0, t1, hit_anything,
                        closest_so_far as int, j),
                !hit_anything ==> closest_so_far == t_max
                    && temp_interaction == zero_interaction(),
                hit_anything ==> temp_interaction.t == closest_so_far
                    && crate::vector::vabs_le(temp_interaction.normal, 2 * SCALE as int)
                    && crate::vector::vabs_le(temp_interaction.p, COORD_MAX as int + 1)
                    && (exists|j: int| 0 <= j < n
                        && #[trigger] cand(objs, *ray, t0, t1, j)
                            == Some(closest_so_far as int)
                        && temp_interaction == hittable_interaction_of(objs[j], *ray,
                            closest_so_far as int)),
            decreases
                stack_measure(nseq, nodes_to_visit@)
                    + lin_end(nseq, current_node_index as int) - current_node_index,
        {
            proof {
                lemma_sm_nonneg(nseq, objs, nodes_to_visit@);
                lemma_wf_extent(nseq, objs, current_node_index as int);
            }
            let ghost st_old = nodes_to_visit@;
            let ghost cur_old = current_node_index as int;
            let node = self.nodes[current_node_index];
            if node.bounds.intersect(ray, &dir_is_neg, closest_so_far, t_min) {
                if node.num_hittable > 0 {
                    let offset = match node.offset {
                        BVHOffset::HittableOffset(o) => o,
                        BVHOffset::SecondChildOffset(_) => vstd::pervasive::unreached(),
                    };
                    let mut li: usize = 0;
                    while li < node.num_hittable
                        invariant
                            objs == self.objects@,
                            nseq == self.nodes@,
                            n == objs.len(),
                            t0 == t_min as int,
                            t1 == t_max as int,
                            wf_list(*self),
                            ray_fits(*ray),
                            0 <= t_min <= closest_so_far <= t_max <= T_LIMIT,
                            li <= node.num_hittable,
                            node == nseq[cur_old],
                            node.offset == BVHOffset::HittableOffset(offset),
                            wf_tree(nseq, objs, cur_old),
                            offset + node.num_hittable <= n,
                            nodes_to_visit@ == st_old,
                            current_node_index as int == cur_old,
                            forall|k: int| 0 <= k < st_old.len()
                                ==> wf_tree(nseq, objs, #[trigger] st_old[k] as int),
                            forall|j: int| 0 <= j < n
                                && !in_pending(nseq, st_old, cur_old, j)
                                ==> #[trigger] settled_at(objs, *ray, t0, t1, hit_anything,
                                    closest_so_far as int, j),
                            forall|j: int| offset <= j < offset + li
                                ==> #[trigger] settled_at(objs, *ray, t0, t1, hit_anything,
                                    closest_so_far as int, j),
                            !hit_anything ==> closest_so_far == t_max
                                && temp_interaction == zero_interaction(),
                            hit_anything ==> temp_interaction.t == closest_so_far
                                && crate::vector::vabs_le(temp_interaction.normal,
                                    2 * SCALE as int)
                                && crate::vector::vabs_le(temp_interaction.p,
                                    COORD_MAX as int + 1)
                                && (exists|j: int| 0 <= j < n
                                    && #[trigger] cand(objs, *ray, t0, t1, j)
                                        == Some(closest_so_far as int)
                                    && temp_interaction == hittable_interaction_of(objs[j],
                                        *ray, closest_so_far as int)),
                        decreases node.num_hittable - li,
                    {
                        let ghost pre_closest = closest_so_far;
                        let ghost pre_found = hit_anything;
                        let h = self.objects[offset + li];
                        if h.hit(ray, t_min, closest_so_far, &mut temp_interaction) {
                            hit_anything = true;
                            closest_so_far = temp_interaction.t;
                            proof {
                                lemma_hit_range(objs[offset + li], *ray, t0,
                                    pre_closest as int, t1);
                                assert(cand(objs, *ray, t0, t1, offset + li)
                                    == hittable_hit_of(objs[offset + li], *ray, t0, t1));
                                assert forall|j: int| 0 <= j < n
                                    && settled_at(objs, *ray, t0, t1, pre_found,
                                        pre_closest as int, j)
                                    implies #[trigger] settled_at(objs, *ray, t0, t1,
                                        hit_anything, closest_so_far as int, j) by {}
                                assert(settled_at(objs, *ray, t0, t1, hit_anything,
                                    closest_so_far as int, offset + li));
                            }
                        } else {
                            proof {
                                lemma_hit_range(objs[offset + li], *ray, t0,
                                    pre_closest as int, t1);
                                assert(cand(objs, *ray, t0, t1, offset + li)
                                    == hittable_hit_of(objs[offset + li], *ray, t0, t1));
                                assert(settled_at(objs, *ray, t0, t1, hit_anything,
                                    closest_so_far as int, offset + li));
                            }
                        }
                        li += 1;
                    }
                    proof {
                        assert(lin_lo(nseq, cur_old) == offset);
                        assert(lin_hi(nseq, cur_old) == offset + node.num_hittable);
                    }
                    match nodes_to_visit.pop() {
                        Some(idx) => {
                            current_node_index = idx;
                            proof {
                                lemma_pop_settles(nseq, objs, *ray, t0, t1, st_old, cur_old,
                                    hit_anything, closest_so_far as int);
                                lemma_wf_extent(nseq, objs, cur_old);
                            }
                        },
                        None => {
                            proof {
                                lemma_empty_settles(nseq, objs, *ray, t0, t1, cur_old,
                                    hit_anything, closest_so_far as int, n as int);
                            }
                            break;
                        },
                    }
                } else {
                    let rc = match node.offset {
                        BVHOffset::SecondChildOffset(o) => o,
                        BVHOffset::HittableOffset(_) => vstd::pervasive::unreached(),
                    };
                    let near: usize;
                    let far: usize;
                    if dir_is_neg[node.axis] {
                        near = rc;
                        far = current_node_index + 1;
                    } else {
                        near = current_node_index + 1;
                        far = rc;
                    }
                    nodes_to_visit.push(far);
                    current_node_index = near;
                    proof {
                        lemma_sm_push(nseq, st_old, far);
                        lemma_wf_extent(nseq, objs, cur_old + 1);
                        lemma_wf_extent(nseq, objs, rc as int);
                        assert(lin_end(nseq, cur_old) == lin_end(nseq, rc as int));
                        assert forall|j: int| 0 <= j < n
                            && !in_pending(nseq, nodes_to_visit@, near as int, j)
                            implies #[trigger] settled_at(objs, *ray, t0, t1, hit_anything,
                                closest_so_far as int, j) by {
                            if in_pending(nseq, st_old, cur_old, j) {
                                if lin_lo(nseq, cur_old) <= j < lin_hi(nseq, cur_old) {
                                    if lin_lo(nseq, far as int) <= j < lin_hi(nseq, far as int) {
                                        assert(nodes_to_visit@[st_old.len() as int] == far);
                                        assert(in_pending(nseq, nodes_to_visit@,
                                            near as int, j));
                                    } else {
                                        assert(lin_lo(nseq, near as int) <= j
                                            < lin_hi(nseq, near as int));
                                        assert(in_pending(nseq, nodes_to_visit@,
                                            near as int, j));
                                    }
                                } else {
                                    let k = choose|k: int| 0 <= k < st_old.len()
                                        && lin_lo(nseq, #[trigger] st_old[k] as int) <= j
                                            < lin_hi(nseq, st_old[k] as int);
                                    assert(nodes_to_visit@[k] == st_old[k]);
                                    assert(in_pending(nseq, nodes_to_visit@, near as int, j));
                                }
                            }
                        }
                        assert forall|k: int| 0 <= k < nodes_to_visit@.len()
                            implies wf_tree(nseq, objs, #[trigger] nodes_to_visit@[k] as int) by {
                            if k < st_old.len() {
                                assert(nodes_to_visit@[k] == st_old[k]);
                            } else {
                                assert(nodes_to_visit@[k] == far);
                            }
                        }
                    }
                }
            } else {
                proof {
                    assert forall|j: int| lin_lo(nseq, cur_old) <= j < lin_hi(nseq, cur_old)
                        implies #[trigger] settled_at(objs, *ray, t0, t1, hit_anything,
                            closest_so_far as int, j) by {
                        lemma_cand_inside(objs[j], *ray, t0, t1);
                        assert(cand(objs, *ray, t0, t1, j)
                            == hittable_hit_of(objs[j], *ray, t0, t1));
                        match cand(objs, *ray, t0, t1, j) {
                            Some(v) => {
                                assert(box_contains(nseq[cur_old].bounds,
                                    hittable_bound_of(objs[j])));
                                lemma_contains_mono(nseq[cur_old].bounds,
                                    hittable_bound_of(objs[j]), *ray, v);
                                if v <= closest_so_far {
                                    assert(false);
                                }
                                if !hit_anything {
                                    assert(v <= t1 && closest_so_far == t_max);
                                    assert(false);
                                }
                            },
                            None => {},
                        }
                    }
                }
                match nodes_to_visit.pop() {
                    Some(idx) => {
                        current_node_index = idx;
                        proof {
                            lemma_pop_settles(nseq, objs, *ray, t0, t1, st_old, cur_old,
                                hit_anything, closest_so_far as int);
                            lemma_wf_extent(nseq, objs, cur_old);
                        }
                    },
                    None => {
                        proof {
                            lemma_empty_settles(nseq, objs, *ray, t0, t1, cur_old,
                                hit_anything, closest_so_far as int, n as int);
                        }
                        break;
                    },
                }
            }
        }
        proof {
            assert forall|j: int| 0 <= j < n
                implies match #[trigger] cand(objs, *ray, t0, t1, j) {
                    Some(v) => hit_anything && closest_so_far as int <= v,
                    None => true,
                } by {
                assert(settled_at(objs, *ray, t0, t1, hit_anything, closest_so_far as int, j));
            }
        }
        *interaction = temp_interaction;
        hit_anything
    }
}

/// After the current subtree is settled and the stack top is taken up, the
/// primitives outside the new pending set are settled.
proof fn lemma_pop_settles(
    nseq: Seq<LinearBVHNode>, objs: Seq<Hittable>, ray: Ray, t0: int, t1: int,
    st_old: Seq<usize>, cur_old: int, found: bool, closest: int)
    requires
        st_old.len() > 0,
        forall|j: int| 0 <= j < objs.len() && !in_pending(nseq, st_old, cur_old, j)
            ==> #[trigger] settled_at(objs, ray, t0, t1, found, closest, j),
        forall|j: int| lin_lo(nseq, cur_old) <= j < lin_hi(nseq, cur_old)
            ==> #[trigger] settled_at(objs, ray, t0, t1, found, closest, j),
    ensures
        forall|j: int| 0 <= j < objs.len()
            && !in_pending(nseq, st_old.drop_last(), st_old.last() as int, j)
            ==> #[trigger] settled_at(objs, ray, t0, t1, found, closest, j),
{
    assert forall|j: int| 0 <= j < objs.len()
        && !in_pending(nseq, st_old.drop_last(), st_old.last() as int, j)
        implies #[trigger] settled_at(objs, ray, t0, t1, found, closest, j) by {
        if in_pending(nseq, st_old, cur_old, j) {
            if lin_lo(nseq, cur_old) <= j < lin_hi(nseq, cur_old) {
            } else {
                let k = choose|k: int| 0 <= k < st_old.len()
                    && lin_lo(nseq, #[trigger] st_old[k] as int) <= j
                        < lin_hi(nseq, st_old[k] as int);
                if k == st_old.len() - 1 {
                    assert(in_pending(nseq, st_old.drop_last(), st_old.last() as int, j));
                } else {
                    assert(st_old.drop_last()[k] == st_old[k]);
                    assert(in_pending(nseq, st_old.drop_last(), st_old.last() as int, j));
                }
            }
        }
    }
}

/// With an empty stack and the current subtree settled, every primitive
/// under the root is settled.
proof fn lemma_empty_settles(
    nseq: Seq<LinearBVHNode>, objs: Seq<Hittable>, ray: Ray, t0: int, t1: int,
    cur_old: int, found: bool, closest: int, n: int)
    requires
        n == objs.len(),
        forall|j: int| 0 <= j < n && !in_pending(nseq, Seq::<usize>::empty(), cur_old, j)
            ==> #[trigger] settled_at(objs, ray, t0, t1, found, closest, j),
        forall|j: int| lin_lo(nseq, cur_old) <= j < lin_hi(nseq, cur_old)
            ==> #[trigger] settled_at(objs, ray, t0, t1, found, closest, j),
    ensures
        forall|j: int| 0 <= j < n
            ==> #[trigger] settled_at(objs, ray, t0, t1, found, closest, j),
{
    assert forall|j: int| 0 <= j < n
        implies #[trigger] settled_at(objs, ray, t0, t1, found, closest, j) by {
        if in_pending(nseq, Seq::<usize>::empty(), cur_old, j) {
            if lin_lo(nseq, cur_old) <= j < lin_hi(nseq, cur_old) {
            } else {
                let k = choose|k: int| 0 <= k < Seq::<usize>::empty().len()
                    && lin_lo(nseq, #[trigger] Seq::<usize>::empty()[k] as int) <= j
                        < lin_hi(nseq, Seq::<usize>::empty()[k] as int);
                assert(false);
            }
        }
    }
}


impl HittableList {
    /// Build the hierarchy over the primitives added so far: gather each
    /// primitive's box and centroid into the working array, build the tree
    /// while reordering the primitives so every leaf's are contiguous, and
    /// keep the pre-order node array for traversal. Called once, before
    /// any queries; the scene is immutable afterwards.
    pub fn init(&mut self)
        requires
            1 <= old(self).objects@.len() <= 0x1000000,
            forall|k: int| 0 <= k < old(self).objects@.len()
                ==> hittable_fits(#[trigger] old(self).objects@[k]),
        ensures
            wf_list(*final(self)),
            final(self).objects@.len() == old(self).objects@.len(),
            forall|k: int| 0 <= k < final(self).objects@.len()
                ==> hittable_fits(#[trigger] final(self).objects@[k]),
            final(self).objects@.to_multiset() == old(self).objects@.to_multiset(),
            final(self).nodes@[0].bounds
                == fold_bounds(old(self).objects@, 0, old(self).objects@.len() as int),
    {
        let n = self.objects.len();
        let mut hittable_info: Vec<BVHHittableInfo> = Vec::new();
        let mut i: usize = 0;
        while i < n
            invariant
                n == self.objects@.len() <= 0x1000000,
                i <= n,
                forall|k: int| 0 <= k < n ==> hittable_fits(#[trigger] self.objects@[k]),
                hittable_info@.len() == i as int,
                info_ok(hittable_info@, self.objects@),
                forall|k: int| 0 <= k < i
                    ==> (#[trigger] hittable_info@[k]).hittable_number == k,
                forall|k: int| 0 <= k < i
                    ==> (#[trigger] hittable_info@[k]).bounds
                        == hittable_bound_of(self.objects@[k]),
            decreases n - i,
        {
            let bound = self.objects[i].bound();
            let center = bound.center();
            proof {
                assert(abs_of(center.x as int) <= COORD_MAX as int
                    && abs_of(center.y as int) <= COORD_MAX as int
                    && abs_of(center.z as int) <= COORD_MAX as int) by {
                    lemma_center_fits(bound.p_min.x as int, bound.p_max.x as int);
                    lemma_center_fits(bound.p_min.y as int, bound.p_max.y as int);
                    lemma_center_fits(bound.p_min.z as int, bound.p_max.z as int);
                }
            }
            hittable_info.push(BVHHittableInfo {
                hittable_number: i,
                centroid: center,
                bounds: bound,
            });
            i += 1;
        }

        let mut total_nodes: usize = 0;
        let mut ordered_hittables: Vec<Hittable> = Vec::new();
        let mut nodes: Vec<LinearBVHNode> = Vec::new();
        let ghost i_start = hittable_info@;
        recursive_build(&self.objects, &mut hittable_info, 0, n,
            &mut total_nodes, &mut ordered_hittables, &mut nodes);
        let ghost pre_objects = self.objects@;
        self.objects = ordered_hittables;
        self.nodes = nodes;
        proof {
            // The reordered primitive array is a permutation of the scene:
            // it is the final records' primitive run, whose multiset equals
            // the initial identity run's, which is the scene itself.
            let i_fin = hittable_info@;
            assert(i_fin.subrange(0, n as int) =~= i_fin);
            assert(i_start.subrange(0, n as int) =~= i_start);
            assert(self.objects@ =~= range_prims(pre_objects, i_fin)) by {
                assert forall|k: int| 0 <= k < n
                    implies self.objects@[k] == range_prims(pre_objects, i_fin)[k] by {
                    assert(self.objects@[k]
                        == pre_objects[(#[trigger] i_fin[k]).hittable_number as int]);
                }
            }
            assert(range_prims(pre_objects, i_start) =~= pre_objects) by {
                assert forall|k: int| 0 <= k < n
                    implies range_prims(pre_objects, i_start)[k] == pre_objects[k] by {
                    assert((#[trigger] i_start[k]).hittable_number == k);
                }
            }
            lemma_mapped_ms(pre_objects, i_fin, i_start);
            // The root box is the union of the scene's primitive boxes.
            lemma_fold_identity(pre_objects, i_start, 0, n as int);
        }
    }
}

/// Halving both corners keeps the midpoint in coordinate range.
proof fn lemma_center_fits(mn: int, mx: int)
    requires
        abs_of(mn) <= COORD_MAX as int,
        abs_of(mx) <= COORD_MAX as int,
    ensures
        abs_of(tdiv(mn, 2) + tdiv(mx, 2)) <= COORD_MAX as int,
{
    vstd::arithmetic::div_mod::lemma_div_is_ordered(abs_of(mn), COORD_MAX as int, 2);
    vstd::arithmetic::div_mod::lemma_div_is_ordered(abs_of(mx), COORD_MAX as int, 2);
    assert(abs_of(tdiv(mn, 2)) == abs_of(mn) / 2);
    assert(abs_of(tdiv(mx, 2)) == abs_of(mx) / 2);
    assert(COORD_MAX as int / 2 + COORD_MAX as int / 2 <= COORD_MAX as int);
}

/// The traversal and the exhaustive scan agree: for one scene, ray and
/// range, any two results that satisfy the nearest-hit characterization
/// report the same outcome, and on a hit the same distance.
pub proof fn lemma_nearest_hit_unique(
    objs: Seq<Hittable>, ray: Ray, t0: int, t1: int,
    f1: bool, v1: int, f2: bool, v2: int)
    requires
        f1 == some_hit(objs, ray, t0, t1),
        f2 == some_hit(objs, ray, t0, t1),
        f1 ==> exists|j: int| 0 <= j < objs.len()
            && #[trigger] cand(objs, ray, t0, t1, j) == Some(v1),
        f2 ==> exists|j: int| 0 <= j < objs.len()
            && #[trigger] cand(objs, ray, t0, t1, j) == Some(v2),
        f1 ==> forall|j: int| 0 <= j < objs.len()
            ==> match #[trigger] cand(objs, ray, t0, t1, j) {
                Some(v) => v1 <= v,
                None => true,
            },
        f2 ==> forall|j: int| 0 <= j < objs.len()
            ==> match #[trigger] cand(objs, ray, t0, t1, j) {
                Some(v) => v2 <= v,
                None => true,
            },
    ensures
        f1 == f2,
        f1 ==> v1 == v2,
{
    if f1 {
        let j1 = choose|j: int| 0 <= j < objs.len()
            && #[trigger] cand(objs, ray, t0, t1, j) == Some(v1);
        let j2 = choose|j: int| 0 <= j < objs.len()
            && #[trigger] cand(objs, ray, t0, t1, j) == Some(v2);
        assert(v2 <= v1);
        assert(v1 <= v2);
    }
}


/// Splitting a fold at any point gives the union of the two partial folds,
/// provided every box in range is in coordinate range.
proof fn lemma_fold_split(objs: Seq<Hittable>, a: int, b: int, c: int)
    requires
        a <= b <= c <= objs.len(),
        forall|j: int| a <= j < c ==> bounds_fits(hittable_bound_of(#[trigger] objs[j])),
    ensures
        fold_bounds(objs, a, c) == union_of(fold_bounds(objs, a, b), fold_bounds(objs, b, c)),
    decreases c - b,
{
    lemma_fold_fits(objs, a, b);
    if c == b {
        let fb = fold_bounds(objs, a, b);
        assert(union_of(fb, empty_box()) == fb);
    } else {
        lemma_fold_split(objs, a, b, c - 1);
        let f1 = fold_bounds(objs, a, b);
        let f2 = fold_bounds(objs, b, c - 1);
        let x = hittable_bound_of(objs[c - 1]);
        assert(union_of(union_of(f1, f2), x) == union_of(f1, union_of(f2, x)));
    }
}

/// Every node's box is exactly the union of the boxes of the primitives in
/// its index range: the stored bounds of a leaf fold its own primitives,
/// and an interior node's union of its children telescopes down to the
/// same fold over its whole range.
pub proof fn lemma_node_bounds_exact(nodes: Seq<LinearBVHNode>, objs: Seq<Hittable>, i: int)
    requires
        wf_tree(nodes, objs, i),
        forall|j: int| 0 <= j < objs.len() ==> hittable_fits(#[trigger] objs[j]),
    ensures
        nodes[i].bounds == fold_bounds(objs, lin_lo(nodes, i), lin_hi(nodes, i)),
    decreases nodes.len() - i,
{
    lemma_wf_extent(nodes, objs, i);
    match nodes[i].offset {
        BVHOffset::HittableOffset(_) => {},
        BVHOffset::SecondChildOffset(rc) => {
            lemma_node_bounds_exact(nodes, objs, i + 1);
            lemma_node_bounds_exact(nodes, objs, rc as int);
            lemma_wf_extent(nodes, objs, i + 1);
            lemma_wf_extent(nodes, objs, rc as int);
            assert forall|j: int| lin_lo(nodes, i) <= j < lin_hi(nodes, i)
                implies bounds_fits(hittable_bound_of(#[trigger] objs[j])) by {
                match objs[j] {
                    Hittable::Sphere(sp) => {
                        assert(hittable_fits(objs[j]));
                    },
                }
            }
            lemma_fold_split(objs, lin_lo(nodes, i), lin_hi(nodes, i + 1), lin_hi(nodes, i));
        },
    }
}


/// Pushing the next record onto whichever side of the partition it belongs
/// to keeps the two sides' multisets summing to the scanned range's.
proof fn lemma_partition_push(
    pre_left: Seq<BVHHittableInfo>, pre_right: Seq<BVHHittableInfo>,
    post_left: Seq<BVHHittableInfo>, post_right: Seq<BVHHittableInfo>,
    info: Seq<BVHHittableInfo>, start: int, k: int)
    requires
        0 <= start <= k < info.len(),
        pre_left.to_multiset().add(pre_right.to_multiset())
            == info.subrange(start, k).to_multiset(),
        (post_left == pre_left.push(info[k]) && post_right == pre_right)
            || (post_left == pre_left && post_right == pre_right.push(info[k])),
    ensures
        post_left.to_multiset().add(post_right.to_multiset())
            == info.subrange(start, k + 1).to_multiset(),
{
    broadcast use vstd::seq_lib::group_to_multiset_ensures;
    broadcast use vstd::multiset::group_multiset_axioms;
    assert(info.subrange(start, k + 1) =~= info.subrange(start, k).push(info[k]));
    assert(info.subrange(start, k + 1).to_multiset()
        =~= info.subrange(start, k).to_multiset().insert(info[k]));
    if post_left == pre_left.push(info[k]) && post_right == pre_right {
        assert(post_left.to_multiset() =~= pre_left.to_multiset().insert(info[k]));
        assert(post_left.to_multiset().add(post_right.to_multiset())
            =~= pre_left.to_multiset().add(pre_right.to_multiset()).insert(info[k]));
    } else {
        assert(post_right.to_multiset() =~= pre_right.to_multiset().insert(info[k]));
        assert(post_left.to_multiset().add(post_right.to_multiset())
            =~= pre_left.to_multiset().add(pre_right.to_multiset()).insert(info[k]));
    }
}


/// A range's multiset is the sum of the multisets of its two halves.
proof fn lemma_range_ms_split(s: Seq<BVHHittableInfo>, a: int, m: int, b: int)
    requires
        0 <= a <= m <= b <= s.len(),
    ensures
        s.subrange(a, b).to_multiset()
            == s.subrange(a, m).to_multiset().add(s.subrange(m, b).to_multiset()),
{
    broadcast use vstd::seq_lib::lemma_multiset_commutative;
    assert(s.subrange(a, b) =~= s.subrange(a, m) + s.subrange(m, b));
}


/// The primitives a run of working records points at, in record order.
pub open spec fn range_prims(objs: Seq<Hittable>, info: Seq<BVHHittableInfo>) -> Seq<Hittable> {
    info.map_values(|it: BVHHittableInfo| objs[it.hittable_number as int])
}

/// Records with equal multisets point at primitive runs with equal
/// multisets: reordering the working array only reorders the scene.
proof fn lemma_mapped_ms(objs: Seq<Hittable>, s1: Seq<BVHHittableInfo>, s2: Seq<BVHHittableInfo>)
    requires
        s1.to_multiset() == s2.to_multiset(),
    ensures
        range_prims(objs, s1).to_multiset() == range_prims(objs, s2).to_multiset(),
    decreases s1.len(),
{
    broadcast use vstd::seq_lib::group_to_multiset_ensures;
    broadcast use vstd::multiset::group_multiset_axioms;
    if s1.len() == 0 {
        assert(s1.to_multiset().len() == s1.len());
        assert(s2.to_multiset().len() == s2.len());
        assert(s2.len() == 0);
        assert(range_prims(objs, s1) =~= range_prims(objs, s2));
    } else {
        let x = s1.last();
        let s1p = s1.drop_last();
        assert(s1 =~= s1p.push(x));
        assert(s1p.push(x).to_multiset() =~= s1p.to_multiset().insert(x));
        assert(s1.to_multiset().count(x) > 0) by {
            assert(s1.contains(x));
        }
        assert(s2.contains(x));
        let j = choose|j: int| 0 <= j < s2.len() && s2[j] == x;
        let s2p = s2.remove(j);
        assert(s2p.to_multiset() == s2.to_multiset().remove(x));
        assert(s1p.to_multiset() =~= s2p.to_multiset());
        lemma_mapped_ms(objs, s1p, s2p);
        let fx = objs[x.hittable_number as int];
        assert(range_prims(objs, s1) =~= range_prims(objs, s1p).push(fx));
        assert(range_prims(objs, s1p).push(fx).to_multiset()
            =~= range_prims(objs, s1p).to_multiset().insert(fx));
        assert(range_prims(objs, s2p) =~= range_prims(objs, s2).remove(j));
        assert(range_prims(objs, s2).remove(j).to_multiset()
            == range_prims(objs, s2).to_multiset().remove(range_prims(objs, s2)[j]));
        assert(range_prims(objs, s2)[j] == fx);
        assert(range_prims(objs, s2).to_multiset().count(fx) > 0) by {
            assert(range_prims(objs, s2).contains(fx)) by {
                assert(range_prims(objs, s2)[j] == fx);
            }
        }
        assert(range_prims(objs, s1).to_multiset() =~= range_prims(objs, s2).to_multiset());
    }
}


/// A fold of in-range boxes stays in range.
proof fn lemma_fold_info_fits(s: Seq<BVHHittableInfo>, a: int, b: int)
    requires
        forall|k: int| a <= k < b ==> bounds_fits((#[trigger] s[k]).bounds),
    ensures
        bounds_fits(fold_info_bounds(s, a, b)),
    decreases b - a,
{
    if b > a {
        lemma_fold_info_fits(s, a, b - 1);
    }
}

/// The record fold reads only the entries of its range.
proof fn lemma_fold_info_frame(s1: Seq<BVHHittableInfo>, s2: Seq<BVHHittableInfo>, b: int)
    requires
        b <= s1.len(),
        b <= s2.len(),
        forall|k: int| 0 <= k < b ==> s1[k] == #[trigger] s2[k],
    ensures
        fold_info_bounds(s1, 0, b) == fold_info_bounds(s2, 0, b),
    decreases b,
{
    if b > 0 {
        lemma_fold_info_frame(s1, s2, b - 1);
    }
}

/// The fold over a range equals the fold over that range cut out as its
/// own sequence.
proof fn lemma_fold_info_shift(s: Seq<BVHHittableInfo>, a: int, b: int)
    requires
        0 <= a <= b <= s.len(),
    ensures
        fold_info_bounds(s, a, b) == fold_info_bounds(s.subrange(a, b), 0, b - a),
    decreases b - a,
{
    if b > a {
        lemma_fold_info_shift(s, a, b - 1);
        assert forall|k: int| 0 <= k < b - 1 - a
            implies s.subrange(a, b - 1)[k] == #[trigger] s.subrange(a, b)[k] by {}
        lemma_fold_info_frame(s.subrange(a, b - 1), s.subrange(a, b), b - 1 - a);
        assert(s.subrange(a, b)[b - 1 - a] == s[b - 1]);
    }
}

/// Splitting the record fold at any point gives the union of the partial
/// folds.
proof fn lemma_fold_info_split(s: Seq<BVHHittableInfo>, a: int, m: int, b: int)
    requires
        0 <= a <= m <= b <= s.len(),
        forall|k: int| a <= k < b ==> bounds_fits((#[trigger] s[k]).bounds),
    ensures
        fold_info_bounds(s, a, b)
            == union_of(fold_info_bounds(s, a, m), fold_info_bounds(s, m, b)),
    decreases b - m,
{
    if b == m {
        let f = fold_info_bounds(s, a, m);
        lemma_fold_info_fits(s, a, m);
        assert(union_of(f, empty_box()) == f);
    } else {
        lemma_fold_info_split(s, a, m, b - 1);
        let f1 = fold_info_bounds(s, a, m);
        let f2 = fold_info_bounds(s, m, b - 1);
        let x = s[b - 1].bounds;
        assert(union_of(union_of(f1, f2), x) == union_of(f1, union_of(f2, x)));
    }
}

/// Dropping one record is dropping one term of the union, wherever it sits.
proof fn lemma_fold_info_remove(s: Seq<BVHHittableInfo>, j: int)
    requires
        0 <= j < s.len(),
        forall|k: int| 0 <= k < s.len() ==> bounds_fits((#[trigger] s[k]).bounds),
    ensures
        fold_info_bounds(s, 0, s.len() as int)
            == union_of(fold_info_bounds(s.remove(j), 0, s.len() - 1), s[j].bounds),
    decreases s.len(),
{
    let n = s.len() as int;
    if j == n - 1 {
        assert forall|k: int| 0 <= k < n - 1
            implies s[k] == #[trigger] s.remove(j)[k] by {}
        lemma_fold_info_frame(s, s.remove(j), n - 1);
    } else {
        let sp = s.subrange(0, n - 1);
        assert forall|k: int| 0 <= k < n - 1 implies s[k] == #[trigger] sp[k] by {}
        lemma_fold_info_frame(s, sp, n - 1);
        assert forall|k: int| 0 <= k < sp.len()
            implies bounds_fits((#[trigger] sp[k]).bounds) by {
            assert(sp[k] == s[k]);
        }
        lemma_fold_info_remove(sp, j);
        assert(s.remove(j) =~= sp.remove(j).push(s[n - 1]));
        assert forall|k: int| 0 <= k < n - 2
            implies sp.remove(j)[k] == #[trigger] s.remove(j)[k] by {}
        lemma_fold_info_frame(sp.remove(j), s.remove(j), n - 2);
        assert(s.remove(j)[n - 2] == s[n - 1]);
        let f = fold_info_bounds(sp.remove(j), 0, n - 2);
        let xj = s[j].bounds;
        let xl = s[n - 1].bounds;
        assert(fold_info_bounds(s, 0, n) == union_of(union_of(f, xj), xl));
        assert(fold_info_bounds(s.remove(j), 0, n - 1) == union_of(f, xl));
        assert(union_of(union_of(f, xj), xl) == union_of(union_of(f, xl), xj));
    }
}

/// The folded box of a run of records depends only on its multiset: the
/// union is commutative and associative, so any reordering folds to the
/// same box.
proof fn lemma_fold_info_perm(s1: Seq<BVHHittableInfo>, s2: Seq<BVHHittableInfo>)
    requires
        s1.to_multiset() == s2.to_multiset(),
        forall|k: int| 0 <= k < s1.len() ==> bounds_fits((#[trigger] s1[k]).bounds),
        forall|k: int| 0 <= k < s2.len() ==> bounds_fits((#[trigger] s2[k]).bounds),
    ensures
        fold_info_bounds(s1, 0, s1.len() as int) == fold_info_bounds(s2, 0, s2.len() as int),
    decreases s1.len(),
{
    broadcast use vstd::seq_lib::group_to_multiset_ensures;
    broadcast use vstd::multiset::group_multiset_axioms;
    if s1.len() == 0 {
        assert(s1.to_multiset().len() == s1.len());
        assert(s2.to_multiset().len() == s2.len());
        assert(s2.len() == 0);
    } else {
        let n1 = s1.len() as int;
        let x = s1.last();
        let s1p = s1.drop_last();
        assert(s1 =~= s1p.push(x));
        assert(s1p.push(x).to_multiset() =~= s1p.to_multiset().insert(x));
        assert(s1.to_multiset().count(x) > 0) by {
            assert(s1.contains(x));
        }
        assert(s2.contains(x));
        let j = choose|j: int| 0 <= j < s2.len() && s2[j] == x;
        let s2p = s2.remove(j);
        assert(s2p.to_multiset() == s2.to_multiset().remove(x));
        assert(s1p.to_multiset() =~= s2p.to_multiset());
        assert forall|k: int| 0 <= k < s1p.len()
            implies bounds_fits((#[trigger] s1p[k]).bounds) by {
            assert(s1p[k] == s1[k]);
        }
        assert forall|k: int| 0 <= k < s2p.len()
            implies bounds_fits((#[trigger] s2p[k]).bounds) by {
            if k < j {
                assert(s2p[k] == s2[k]);
            } else {
                assert(s2p[k] == s2[k + 1]);
            }
        }
        lemma_fold_info_perm(s1p, s2p);
        assert forall|k: int| 0 <= k < n1 - 1 implies s1p[k] == #[trigger] s1[k] by {}
        lemma_fold_info_frame(s1p, s1, n1 - 1);
        lemma_fold_info_remove(s2, j);
    }
}


/// An interior node's box — the union of its children's, each the fold of
/// the reordered records of its half — equals the fold of the records the
/// range held before any reordering: the union fold sees only the
/// multiset, which reordering and the recursive builds preserve.
proof fn lemma_subtree_bounds_from_old(
    i_old: Seq<BVHHittableInfo>, i_split: Seq<BVHHittableInfo>, i_mid: Seq<BVHHittableInfo>,
    objs: Seq<Hittable>, sa: int, sm: int, se: int, bl: Bounds3, br: Bounds3)
    requires
        0 <= sa < sm < se <= i_old.len(),
        i_old.len() == i_split.len(),
        i_old.len() == i_mid.len(),
        info_ok(i_old, objs),
        info_ok(i_split, objs),
        bl == fold_info_bounds(i_split, sa, sm),
        br == fold_info_bounds(i_mid, sm, se),
        forall|k: int| sm <= k < se ==> #[trigger] i_mid[k] == i_split[k],
        i_split.subrange(sa, se).to_multiset() == i_old.subrange(sa, se).to_multiset(),
    ensures
        union_of(bl, br) == fold_info_bounds(i_old, sa, se),
{
    assert(br == fold_info_bounds(i_split, sm, se)) by {
        assert(i_mid.subrange(sm, se) =~= i_split.subrange(sm, se));
        lemma_fold_info_shift(i_mid, sm, se);
        lemma_fold_info_shift(i_split, sm, se);
    }
    assert forall|k: int| sa <= k < se
        implies bounds_fits((#[trigger] i_split[k]).bounds) by {
        assert(info_item_ok(i_split[k], objs));
    }
    lemma_fold_info_split(i_split, sa, sm, se);
    lemma_fold_info_shift(i_split, sa, se);
    lemma_fold_info_shift(i_old, sa, se);
    assert forall|k: int| 0 <= k < i_split.subrange(sa, se).len()
        implies bounds_fits((#[trigger] i_split.subrange(sa, se)[k]).bounds) by {
        assert(i_split.subrange(sa, se)[k] == i_split[sa + k]);
    }
    assert forall|k: int| 0 <= k < i_old.subrange(sa, se).len()
        implies bounds_fits((#[trigger] i_old.subrange(sa, se)[k]).bounds) by {
        assert(i_old.subrange(sa, se)[k] == i_old[sa + k]);
        assert(info_item_ok(i_old[sa + k], objs));
    }
    lemma_fold_info_perm(i_split.subrange(sa, se), i_old.subrange(sa, se));
}


/// Records that carry exactly the primitives' boxes fold to the same box
/// as the primitives themselves.
proof fn lemma_fold_identity(objs: Seq<Hittable>, info: Seq<BVHHittableInfo>, a: int, b: int)
    requires
        b <= objs.len(),
        b <= info.len(),
        forall|k: int| a <= k < b
            ==> (#[trigger] info[k]).bounds == hittable_bound_of(objs[k]),
    ensures
        fold_info_bounds(info, a, b) == fold_bounds(objs, a, b),
    decreases b - a,
{
    if b > a {
        lemma_fold_identity(objs, info, a, b - 1);
    }
}

} // verus!
