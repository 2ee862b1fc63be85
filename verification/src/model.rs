//! The mathematical model of point-index lists.
//!
//! A node's point list is modelled as a `Seq<usize>` of store indices.
//! `inside_seq` keeps, in order, the indices whose position falls inside
//! a rectangle; `count_inside` is its length.  Every contract of the tree
//! speaks in these terms.

use crate::geometry::{
    in_rect, lemma_quadrant_consistent, quad_index, spec_child_rect, spec_quadrant, Point, Rect,
};
use vstd::prelude::*;

verus! {

/// The subsequence of `ps` whose positions (looked up in `pts`) fall
/// inside `r`, in their original order.
pub open spec fn inside_seq(ps: Seq<usize>, pts: Seq<Point>, r: Rect) -> Seq<usize>
    decreases ps.len(),
{
    if ps.len() == 0 {
        Seq::<usize>::empty()
    } else {
        let rest = inside_seq(ps.drop_last(), pts, r);
        if in_rect(r, pts[ps.last() as int]) {
            rest.push(ps.last())
        } else {
            rest
        }
    }
}

/// How many entries of `ps` have their position inside `r`.
pub open spec fn count_inside(ps: Seq<usize>, pts: Seq<Point>, r: Rect) -> nat {
    inside_seq(ps, pts, r).len()
}

/// The sequence `0, 1, ..., n - 1` of all store indices.
pub open spec fn index_seq(n: nat) -> Seq<usize> {
    Seq::new(n, |i: int| i as usize)
}

/// Appending one index to the list extends the filtered list exactly
/// when its position is inside the rectangle.
pub proof fn lemma_inside_seq_push(ps: Seq<usize>, pts: Seq<Point>, r: Rect, x: usize)
    ensures
        in_rect(r, pts[x as int]) ==> inside_seq(ps.push(x), pts, r) == inside_seq(
            ps,
            pts,
            r,
        ).push(x),
        !in_rect(r, pts[x as int]) ==> inside_seq(ps.push(x), pts, r) == inside_seq(ps, pts, r),
{
    assert(ps.push(x).drop_last() =~= ps);
    assert(ps.push(x).last() == x);
}

/// The filtered list holds exactly the members of `ps` whose position is
/// inside the rectangle.
pub proof fn lemma_inside_seq_membership(ps: Seq<usize>, pts: Seq<Point>, r: Rect)
    ensures
        forall|k: usize|
            #[trigger] inside_seq(ps, pts, r).contains(k) <==> ps.contains(k) && in_rect(
                r,
                pts[k as int],
            ),
    decreases ps.len(),
{
    if ps.len() == 0 {
        assert forall|k: usize| !ps.contains(k) by {
            if ps.contains(k) {
                let j = choose|j: int| 0 <= j < ps.len() && ps[j] == k;
            }
        }
    } else {
        let rest = ps.drop_last();
        lemma_inside_seq_membership(rest, pts, r);
        assert forall|k: usize| #[trigger]
            inside_seq(ps, pts, r).contains(k) <==> ps.contains(k) && in_rect(
                r,
                pts[k as int],
            ) by {
            let filtered = inside_seq(ps, pts, r);
            let frest = inside_seq(rest, pts, r);
            if in_rect(r, pts[ps.last() as int]) {
                assert(filtered == frest.push(ps.last()));
                assert(filtered.contains(k) <==> frest.contains(k) || k == ps.last()) by {
                    if filtered.contains(k) {
                        let j = choose|j: int| 0 <= j < filtered.len() && filtered[j] == k;
                        if j < frest.len() {
                            assert(frest[j] == k);
                        }
                    }
                    if frest.contains(k) {
                        let j = choose|j: int| 0 <= j < frest.len() && frest[j] == k;
                        assert(filtered[j] == k);
                    }
                    if k == ps.last() {
                        assert(filtered[filtered.len() - 1] == k);
                    }
                }
            } else {
                assert(filtered == frest);
            }
            assert(ps.contains(k) <==> rest.contains(k) || k == ps.last()) by {
                if ps.contains(k) {
                    let j = choose|j: int| 0 <= j < ps.len() && ps[j] == k;
                    if j < rest.len() {
                        assert(rest[j] == k);
                    }
                }
                if rest.contains(k) {
                    let j = choose|j: int| 0 <= j < rest.len() && rest[j] == k;
                    assert(ps[j] == k);
                }
                if k == ps.last() {
                    assert(ps[ps.len() - 1] == k);
                }
            }
        }
    }
}

/// Every entry of the filtered list is a member of the original list
/// whose position lies inside the rectangle.
pub proof fn lemma_inside_seq_elements(ps: Seq<usize>, pts: Seq<Point>, r: Rect)
    ensures
        forall|k: int|
            0 <= k < inside_seq(ps, pts, r).len() ==> ps.contains(
                #[trigger] inside_seq(ps, pts, r)[k],
            ) && in_rect(r, pts[inside_seq(ps, pts, r)[k] as int]),
    decreases ps.len(),
{
    if ps.len() > 0 {
        let rest = ps.drop_last();
        lemma_inside_seq_elements(rest, pts, r);
        assert forall|x: usize| rest.contains(x) implies ps.contains(x) by {
            let j = choose|j: int| 0 <= j < rest.len() && rest[j] == x;
            assert(ps[j] == x);
        }
        assert(ps[ps.len() - 1] == ps.last());
        assert(ps.contains(ps.last()));
        let f = inside_seq(ps, pts, r);
        let frest = inside_seq(rest, pts, r);
        if in_rect(r, pts[ps.last() as int]) {
            assert(f == frest.push(ps.last()));
            assert(forall|k: int| 0 <= k < frest.len() ==> f[k] == frest[k]);
        }
    }
}

/// No filtered list is longer than the list it came from.
pub proof fn lemma_count_le_len(ps: Seq<usize>, pts: Seq<Point>, r: Rect)
    ensures
        count_inside(ps, pts, r) <= ps.len(),
    decreases ps.len(),
{
    if ps.len() > 0 {
        lemma_count_le_len(ps.drop_last(), pts, r);
    }
}

/// For a list of points all inside `r`, the counts over the four child
/// rectangles of `r` add up to the length of the list: the quarters tile
/// the parent, so each point is counted exactly once.
pub proof fn lemma_count_partition(ps: Seq<usize>, pts: Seq<Point>, r: Rect)
    requires
        forall|k: int| 0 <= k < ps.len() ==> in_rect(r, pts[#[trigger] ps[k] as int]),
    ensures
        count_inside(ps, pts, spec_child_rect(r, 0)) + count_inside(ps, pts, spec_child_rect(r, 1))
            + count_inside(ps, pts, spec_child_rect(r, 2)) + count_inside(
            ps,
            pts,
            spec_child_rect(r, 3),
        ) == ps.len(),
    decreases ps.len(),
{
    if ps.len() > 0 {
        let rest = ps.drop_last();
        assert(forall|k: int| 0 <= k < rest.len() ==> rest[k] == ps[k]);
        lemma_count_partition(rest, pts, r);
        let p = pts[ps.last() as int];
        assert(in_rect(r, p));
        lemma_quadrant_consistent(r, p);
        let i = quad_index(spec_quadrant(r, p));
        assert(in_rect(spec_child_rect(r, i), p));
        assert(forall|j: int| 0 <= j < 4 && j != i ==> !in_rect(spec_child_rect(r, j), p));
    }
}

} // verus!
