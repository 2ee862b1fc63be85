//! The laws the index obeys, each proved once and for all.
//!
//! The first four speak of any tree that is consistent with a snapshot
//! of positions; the rebuild laws speak of trees as `Tree::update`
//! leaves them.

use crate::geometry::{
    height, in_rect, lemma_child_in_parent, lemma_quadrant_consistent, quad_index, spec_child_rect,
    spec_quadrant, width, Point, Rect,
};
use crate::model::{count_inside, index_seq, inside_seq, lemma_inside_seq_membership};
use crate::tree::Tree;
use vstd::prelude::*;

verus! {

/// Coverage: after a rebuild, every store index whose position lies
/// strictly inside the root rectangle appears in the root's point list.
pub proof fn lemma_coverage(t: Tree, pts: Seq<Point>, p: usize)
    requires
        t.rebuilt(pts),
        p < pts.len(),
        in_rect(t.root_rect(), pts[p as int]),
    ensures
        t.root().points@.contains(p),
{
    lemma_inside_seq_membership(index_seq(pts.len()), pts, t.root_rect());
    assert(index_seq(pts.len())[p as int] == p);
    assert(index_seq(pts.len()).contains(p));
}

/// Containment: every point index held by any node of a consistent tree
/// is a live store index whose position lies strictly inside that
/// node's rectangle.
pub proof fn lemma_containment(t: Tree, pts: Seq<Point>, i: int, k: int)
    requires
        t.wf(),
        t.indexed(pts),
        t.is_node(i),
        0 <= k < t.node_at(i).points@.len(),
    ensures
        t.node_at(i).points@[k] < pts.len(),
        in_rect(t.node_at(i).rect, pts[t.node_at(i).points@[k] as int]),
{
    assert(t.points_ok(i, pts));
}

/// Partition exactness: the four child rectangles of a rectangle tile
/// it exactly — a point lies in the parent precisely when it lies in
/// some child, and never in two children at once.
pub proof fn lemma_partition_exact(r: Rect, p: Point)
    requires
        width(r) >= 0,
        height(r) >= 0,
    ensures
        in_rect(r, p) <==> exists|q: int|
            0 <= q < 4 && #[trigger] in_rect(spec_child_rect(r, q), p),
        forall|q1: int, q2: int|
            0 <= q1 < 4 && 0 <= q2 < 4 && q1 != q2 && #[trigger] in_rect(spec_child_rect(r, q1), p)
                ==> !(#[trigger] in_rect(spec_child_rect(r, q2), p)),
{
    if in_rect(r, p) {
        lemma_quadrant_consistent(r, p);
        let qc = quad_index(spec_quadrant(r, p));
        assert(in_rect(spec_child_rect(r, qc), p));
    }
    assert forall|q: int| 0 <= q < 4 && #[trigger] in_rect(spec_child_rect(r, q), p) implies in_rect(
        r,
        p,
    ) && q == quad_index(spec_quadrant(r, p)) by {
        lemma_child_in_parent(r, q, p);
    }
}

/// Threshold respected: wherever a consistent tree has a materialized
/// child, the count of the parent's points inside that quadrant meets
/// the split threshold, and the parent is large enough to subdivide.
/// Point lists only ever grow while a tree is built up, so the count
/// had already reached the threshold when the child was materialized.
pub proof fn lemma_threshold(t: Tree, pts: Seq<Point>, i: int, q: int)
    requires
        t.wf(),
        t.indexed(pts),
        0 <= q < 4,
        t.child_exists(i, q),
    ensures
        count_inside(t.node_at(i).points@, pts, spec_child_rect(t.node_at(i).rect, q))
            >= t.split_threshold,
        width(t.node_at(i).rect) >= t.min_size,
        height(t.node_at(i).rect) >= t.min_size,
{
    assert(t.quad_full(i, q, pts));
}

/// Every node's point list is a subset of the root's: a point
/// accumulates on the whole path from the root down to where it rests.
pub proof fn lemma_node_subset_root(t: Tree, pts: Seq<Point>, i: int)
    requires
        t.wf(),
        t.indexed(pts),
        t.is_node(i),
    ensures
        forall|x: usize|
            #[trigger] t.node_at(i).points@.contains(x) ==> t.root().points@.contains(x),
    decreases i,
{
    if i >= 1 {
        assert(t.has_parent(i));
        let j = choose|j: int| t.parent_links(j, i);
        assert(t.node_ok(j));
        let b = t.node_at(j).children->0 as int;
        let q = i - b;
        assert(t.child_exists(j, q));
        assert(t.child_index(j, q) == i);
        assert(t.child_exact(j, q, pts));
        assert(j < b <= i);
        lemma_node_subset_root(t, pts, j);
        lemma_inside_seq_membership(
            t.node_at(j).points@,
            pts,
            spec_child_rect(t.node_at(j).rect, q),
        );
        assert forall|x: usize| #[trigger]
            t.node_at(i).points@.contains(x) implies t.root().points@.contains(x) by {
            assert(t.node_at(j).points@.contains(x));
        }
    }
}

/// Drop on out of bounds: a point whose position lies outside the root
/// rectangle appears, after a rebuild, in no node's list at all — so it
/// does not affect `size` either.
pub proof fn lemma_drop_out_of_bounds(t: Tree, pts: Seq<Point>, p: usize)
    requires
        t.rebuilt(pts),
        !in_rect(t.root_rect(), pts[p as int]),
    ensures
        forall|i: int| #[trigger] t.is_node(i) ==> !t.node_at(i).points@.contains(p),
{
    lemma_inside_seq_membership(index_seq(pts.len()), pts, t.root_rect());
    assert(!t.root().points@.contains(p));
    assert forall|i: int| #[trigger] t.is_node(i) implies !t.node_at(i).points@.contains(p) by {
        lemma_node_subset_root(t, pts, i);
    }
}

/// One step of the correspondence behind rebuild determinism: a live
/// node of one rebuilt tree has a counterpart in the other with the
/// same rectangle and the same point list.
proof fn lemma_match_node(t1: Tree, t2: Tree, pts: Seq<Point>, i: int) -> (j: int)
    requires
        t1.rebuilt(pts),
        t2.rebuilt(pts),
        t1.root_rect() == t2.root_rect(),
        t1.split_threshold == t2.split_threshold,
        t1.min_size == t2.min_size,
        t1.is_node(i),
    ensures
        t2.is_node(j),
        t2.node_at(j).rect == t1.node_at(i).rect,
        t2.node_at(j).points@ == t1.node_at(i).points@,
    decreases i,
{
    if i == 0 {
        0
    } else {
        assert(t1.has_parent(i));
        let jp = choose|jp: int| t1.parent_links(jp, i);
        assert(t1.node_ok(jp));
        let b = t1.node_at(jp).children->0 as int;
        let q = i - b;
        assert(t1.child_exists(jp, q));
        assert(t1.child_index(jp, q) == i);
        assert(jp < b <= i);
        let j2p = lemma_match_node(t1, t2, pts, jp);
        // The same quadrant of the matching parent is over the
        // threshold, since the counts run over equal lists and equal
        // rectangles; so the counterpart child is materialized too.
        assert(t1.quad_full(jp, q, pts));
        assert(t2.quad_full(j2p, q, pts));
        assert(t2.child_exists(j2p, q));
        let j = t2.child_index(j2p, q);
        assert(t2.node_ok(j2p));
        assert(t2.is_node(j));
        assert(t2.node_at(j).rect == spec_child_rect(t2.node_at(j2p).rect, q));
        assert(t1.node_at(i).rect == spec_child_rect(t1.node_at(jp).rect, q));
        assert(t1.child_exact(jp, q, pts));
        assert(t2.child_exact(j2p, q, pts));
        j
    }
}

/// Idempotence under no movement: rebuilding twice against the same
/// positions yields structurally identical trees — more generally, any
/// two rebuilt trees over the same snapshot, root rectangle and
/// configuration hold the same rectangles with the same point lists,
/// whatever order anything was inserted in.
pub proof fn lemma_rebuild_idempotent(t1: Tree, t2: Tree, pts: Seq<Point>)
    requires
        t1.rebuilt(pts),
        t2.rebuilt(pts),
        t1.root_rect() == t2.root_rect(),
        t1.split_threshold == t2.split_threshold,
        t1.min_size == t2.min_size,
    ensures
        t1.root().points@ == t2.root().points@,
        forall|i: int|
            #[trigger] t1.is_node(i) ==> exists|j: int|
                #[trigger] t2.is_node(j) && t2.node_at(j).rect == t1.node_at(i).rect
                    && t2.node_at(j).points@ == t1.node_at(i).points@,
        forall|j: int|
            #[trigger] t2.is_node(j) ==> exists|i: int|
                #[trigger] t1.is_node(i) && t1.node_at(i).rect == t2.node_at(j).rect
                    && t1.node_at(i).points@ == t2.node_at(j).points@,
{
    assert forall|i: int| #[trigger] t1.is_node(i) implies exists|j: int|
        #[trigger] t2.is_node(j) && t2.node_at(j).rect == t1.node_at(i).rect && t2.node_at(
            j,
        ).points@ == t1.node_at(i).points@ by {
        let j = lemma_match_node(t1, t2, pts, i);
    }
    assert forall|j: int| #[trigger] t2.is_node(j) implies exists|i: int|
        #[trigger] t1.is_node(i) && t1.node_at(i).rect == t2.node_at(j).rect && t1.node_at(
            i,
        ).points@ == t2.node_at(j).points@ by {
        let i = lemma_match_node(t2, t1, pts, j);
    }
}

} // verus!

