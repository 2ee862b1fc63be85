//! The quadtree index: an arena of nodes over a fixed root rectangle.
//!
//! Nodes live in one flat, growable sequence.  A node's `children` field
//! is the base slot of its block of four child slots, one per quadrant;
//! the `existing_children` bitmap tells a materialized child apart from a
//! slot that is merely reserved.  A point index accumulates in every node
//! on the path from the root down to its resting depth, and a quadrant
//! materializes only once the number of the node's points inside it
//! reaches the split threshold and the node still measures at least the
//! configured minimum size on both axes.

use crate::geometry::{
    child_rect, height, in_rect, lemma_child_rect_dims, lemma_quadrant_consistent, point_in_rect,
    quad_index, quadrant_index, quadrant_of, rect_bounded, rect_nonempty, spec_child_rect,
    spec_index_quadrant, spec_quadrant, width, Point, Quadrant, Rect,
};
use crate::model::{
    count_inside, index_seq, inside_seq, lemma_count_le_len, lemma_count_partition,
    lemma_inside_seq_elements, lemma_inside_seq_push,
};
use crate::store::PointStore;
use vstd::prelude::*;

verus! {

/// One rectangle of the index: its half-open bounds, the indices of the
/// points inside it, and the bookkeeping for its four child slots.
#[derive(Debug, PartialEq, Eq)]
pub struct Node {
    pub rect: Rect,
    pub points: Vec<usize>,
    pub children: Option<usize>,
    pub existing_children: [bool; 4],
}

/// The quadtree: the node arena, with the root always in slot 0, and the
/// configuration fixed at construction.
#[derive(Debug, PartialEq, Eq)]
pub struct Tree {
    pub nodes: Vec<Option<Node>>,
    pub len: usize,
    pub split_threshold: usize,
    pub min_size: i64,
}

impl Node {
    /// A fresh node over `[min, max)` holding `points`, with no children.
    pub fn new(min: Point, max: Point, points: Vec<usize>) -> (n: Node)
        ensures
            n.rect == (Rect { min, max }),
            n.points == points,
            n.children is None,
            forall|q: int| 0 <= q < 4 ==> !n.existing_children@[q],
    {
        Node {
            rect: Rect { min, max },
            points,
            children: None,
            existing_children: [false, false, false, false],
        }
    }
}

impl Tree {
    pub open spec fn is_node(self, i: int) -> bool {
        0 <= i < self.nodes@.len() && self.nodes@[i] is Some
    }

    pub open spec fn node_at(self, i: int) -> Node {
        self.nodes@[i]->0
    }

    pub open spec fn root(self) -> Node {
        self.node_at(0)
    }

    pub open spec fn root_rect(self) -> Rect {
        self.root().rect
    }

    /// The child of node `i` at quadrant `q` is materialized.
    pub open spec fn child_exists(self, i: int, q: int) -> bool {
        &&& self.is_node(i)
        &&& self.node_at(i).children is Some
        &&& self.node_at(i).existing_children@[q]
    }

    /// The arena slot of the child of node `i` at quadrant `q`.
    pub open spec fn child_index(self, i: int, q: int) -> int {
        self.node_at(i).children->0 + q
    }

    /// The per-node structural invariant: sound rectangle, and a child
    /// block that lies after the node, inside the arena, on a block
    /// boundary, with the bitmap mirroring which slots are filled and
    /// every materialized child sitting on its exact quarter-rectangle.
    pub open spec fn node_ok(self, i: int) -> bool {
        let n = self.node_at(i);
        &&& rect_bounded(n.rect)
        &&& rect_nonempty(n.rect)
        &&& match n.children {
            Option::None => forall|q: int| 0 <= q < 4 ==> !(#[trigger] n.existing_children@[q]),
            Option::Some(base) => {
                &&& i < base
                &&& base + 4 <= self.nodes@.len()
                &&& base % 4 == 1
                &&& forall|q: int|
                    0 <= q < 4 ==> (#[trigger] n.existing_children@[q] <==> self.nodes@[base + q]
                        is Some)
                &&& forall|q: int|
                    0 <= q < 4 && #[trigger] n.existing_children@[q] ==> self.node_at(
                        base + q,
                    ).rect == spec_child_rect(n.rect, q)
            },
        }
    }

    /// Node `j` is the parent of node `i`: `i` sits in `j`'s child block
    /// and is marked materialized there.
    pub open spec fn parent_links(self, j: int, i: int) -> bool {
        &&& self.is_node(j)
        &&& self.node_at(j).children is Some
        &&& self.node_at(j).children->0 <= i < self.node_at(j).children->0 + 4
        &&& self.node_at(j).existing_children@[i - self.node_at(j).children->0]
    }

    pub open spec fn has_parent(self, i: int) -> bool {
        exists|j: int| #[trigger] self.parent_links(j, i)
    }

    /// Node `i` is live and its child block is based at slot `b`.
    pub open spec fn owns_block(self, i: int, b: int) -> bool {
        &&& self.is_node(i)
        &&& self.node_at(i).children is Some
        &&& self.node_at(i).children->0 == b
    }

    /// The structural well-formedness of the whole arena.
    pub open spec fn wf(self) -> bool {
        &&& 1 <= self.nodes@.len()
        &&& self.nodes@.len() % 4 == 1
        &&& self.len == self.nodes@.len()
        &&& self.is_node(0)
        &&& 1 <= self.split_threshold
        &&& 2 <= self.min_size
        &&& forall|i: int| #[trigger] self.is_node(i) ==> self.node_ok(i)
        &&& forall|i: int| 1 <= i && #[trigger] self.is_node(i) ==> self.has_parent(i)
        &&& forall|i: int, j: int, b: int|
            #![trigger self.owns_block(i, b), self.owns_block(j, b)]
            self.owns_block(i, b) && self.owns_block(j, b) ==> i == j
    }

    /// Every point index of node `i` is a live store index whose
    /// position falls inside the node's rectangle.
    pub open spec fn points_ok(self, i: int, pts: Seq<Point>) -> bool {
        let n = self.node_at(i);
        forall|k: int|
            0 <= k < n.points@.len() ==> (#[trigger] n.points@[k]) < pts.len() && in_rect(
                n.rect,
                pts[n.points@[k] as int],
            )
    }

    /// A materialized child holds exactly the parent's points that fall
    /// inside its quarter-rectangle, in the parent's order.
    pub open spec fn child_exact(self, i: int, q: int, pts: Seq<Point>) -> bool {
        self.node_at(self.child_index(i, q)).points@ == inside_seq(
            self.node_at(i).points@,
            pts,
            spec_child_rect(self.node_at(i).rect, q),
        )
    }

    /// Quadrant `q` of node `i` is over the split threshold while the
    /// node is still large enough to subdivide.
    pub open spec fn quad_full(self, i: int, q: int, pts: Seq<Point>) -> bool {
        &&& width(self.node_at(i).rect) >= self.min_size
        &&& height(self.node_at(i).rect) >= self.min_size
        &&& count_inside(
            self.node_at(i).points@,
            pts,
            spec_child_rect(self.node_at(i).rect, q),
        ) >= self.split_threshold
    }

    /// The index is consistent with the given snapshot of positions:
    /// containment, exact child point lists, and a child at a quadrant
    /// precisely when that quadrant is over the threshold.
    pub open spec fn indexed(self, pts: Seq<Point>) -> bool {
        &&& forall|i: int| #[trigger] self.is_node(i) ==> self.points_ok(i, pts)
        &&& forall|i: int, q: int|
            0 <= q < 4 && #[trigger] self.child_exists(i, q) ==> self.child_exact(i, q, pts)
        &&& forall|i: int, q: int|
            #![trigger self.child_exists(i, q)]
            #![trigger self.quad_full(i, q, pts)]
            self.is_node(i) && 0 <= q < 4 ==> (self.child_exists(i, q) <==> self.quad_full(
                i,
                q,
                pts,
            ))
    }

    /// The state `update` leaves the tree in: well-formed, consistent
    /// with the snapshot, and with the root holding exactly the store
    /// indices whose position lies inside the root rectangle, in index
    /// order.
    pub open spec fn rebuilt(self, pts: Seq<Point>) -> bool {
        &&& self.wf()
        &&& self.indexed(pts)
        &&& self.root().points@ == inside_seq(index_seq(pts.len()), pts, self.root_rect())
    }

    /// The quadrant of node `i` that the position of point `p` falls in.
    pub open spec fn point_quad(self, i: int, p: usize, pts: Seq<Point>) -> int {
        quad_index(spec_quadrant(self.node_at(i).rect, pts[p as int]))
    }

    /// The state of the tree part-way through inserting point `p`, with
    /// the descent standing at node `cur`: `p` has been appended to every
    /// node on the path from the root down to `cur`, so the whole index
    /// is consistent except that `p`'s own quadrant of `cur` may be over
    /// the threshold without a child, and a materialized child there is
    /// still owed `p`.
    pub open spec fn descending(self, pts: Seq<Point>, cur: int, p: usize) -> bool {
        let qc = self.point_quad(cur, p, pts);
        let crect = spec_child_rect(self.node_at(cur).rect, qc);
        &&& self.wf()
        &&& self.is_node(cur)
        &&& p < pts.len()
        &&& in_rect(self.node_at(cur).rect, pts[p as int])
        &&& self.node_at(cur).points@.len() > 0
        &&& self.node_at(cur).points@.last() == p
        &&& forall|i: int| #[trigger] self.is_node(i) ==> self.points_ok(i, pts)
        &&& forall|i: int, q: int|
            0 <= q < 4 && #[trigger] self.child_exists(i, q) && !(i == cur && q == qc)
                ==> self.child_exact(i, q, pts)
        &&& (self.child_exists(cur, qc) ==> self.node_at(self.child_index(cur, qc)).points@.push(p)
            == inside_seq(self.node_at(cur).points@, pts, crect))
        &&& forall|i: int, q: int|
            0 <= q < 4 && #[trigger] self.child_exists(i, q) ==> self.quad_full(i, q, pts)
        &&& forall|i: int, q: int|
            #![trigger self.quad_full(i, q, pts)]
            self.is_node(i) && 0 <= q < 4 && !(i == cur && q == qc) && self.quad_full(i, q, pts)
                ==> self.child_exists(i, q)
        &&& (!self.child_exists(cur, qc) && width(self.node_at(cur).rect) >= self.min_size
            && height(self.node_at(cur).rect) >= self.min_size ==> count_inside(
            self.node_at(cur).points@,
            pts,
            crect,
        ) <= self.split_threshold)
    }

    /// Two materialized children sharing an arena slot are the same
    /// child of the same parent: child blocks never overlap, because
    /// every block base sits on a block boundary and no two parents
    /// share a base.
    pub proof fn lemma_unique_parent(self, i: int, q: int, j: int, r: int)
        requires
            self.wf(),
            0 <= q < 4,
            0 <= r < 4,
            self.child_exists(i, q),
            self.child_exists(j, r),
            self.child_index(i, q) == self.child_index(j, r),
        ensures
            i == j,
            q == r,
    {
        if i != j {
            let bi = self.node_at(i).children->0 as int;
            let bj = self.node_at(j).children->0 as int;
            assert(self.node_ok(i));
            assert(self.node_ok(j));
            assert(self.owns_block(i, bi));
            if bi == bj {
                assert(self.owns_block(j, bi));
                assert(false);
            }
            lemma_blocks_disjoint(bi, bj, q, r);
            assert(false);
        }
    }

    /// Well-formedness survives any change that keeps every node's
    /// structure: only point lists may differ.
    #[verifier::rlimit(100)]
    #[verifier::spinoff_prover]
    proof fn lemma_wf_frame(pre: Tree, post: Tree)
        requires
            pre.wf(),
            post.nodes@.len() == pre.nodes@.len(),
            post.len == pre.len,
            post.split_threshold == pre.split_threshold,
            post.min_size == pre.min_size,
            forall|i: int|
                0 <= i < pre.nodes@.len() ==> ((#[trigger] post.nodes@[i]) is Some
                    <==> pre.nodes@[i] is Some),
            forall|i: int|
                0 <= i < pre.nodes@.len() && pre.nodes@[i] is Some ==> (
                #[trigger] post.nodes@[i])->0.rect == pre.nodes@[i]->0.rect
                    && post.nodes@[i]->0.children == pre.nodes@[i]->0.children
                    && post.nodes@[i]->0.existing_children == pre.nodes@[i]->0.existing_children,
        ensures
            post.wf(),
            forall|i: int| #[trigger] post.is_node(i) <==> pre.is_node(i),
            forall|i: int, q: int| #[trigger] post.child_exists(i, q) <==> pre.child_exists(i, q),
            forall|i: int, q: int|
                #[trigger] post.child_exists(i, q) && 0 <= q < 4 ==> post.child_index(i, q)
                    == pre.child_index(i, q),
    {
        assert forall|i: int| #[trigger] post.is_node(i) implies post.node_ok(i) by {
            assert(pre.is_node(i));
            assert(pre.node_ok(i));
        }
        assert forall|i: int| 1 <= i && #[trigger] post.is_node(i) implies post.has_parent(i) by {
            assert(pre.is_node(i));
            assert(pre.has_parent(i));
            let j = choose|j: int| pre.parent_links(j, i);
            assert(post.parent_links(j, i));
        }
        assert forall|i: int, j: int, b: int|
            #![trigger post.owns_block(i, b), post.owns_block(j, b)]
            post.owns_block(i, b) && post.owns_block(j, b) implies i == j by {
            assert(pre.owns_block(i, b));
            assert(pre.owns_block(j, b));
        }
    }

    /// Appending `p` to the root of a consistent tree leaves it in the
    /// descent state at the root.
    #[verifier::rlimit(100)]
    #[verifier::spinoff_prover]
    proof fn lemma_start_insert(pre: Tree, post: Tree, pts: Seq<Point>, p: usize)
        requires
            pre.wf(),
            pre.indexed(pts),
            p < pts.len(),
            in_rect(pre.root_rect(), pts[p as int]),
            post.len == pre.len,
            post.split_threshold == pre.split_threshold,
            post.min_size == pre.min_size,
            post.nodes@.len() == pre.nodes@.len(),
            forall|i: int| 0 < i < pre.nodes@.len() ==> post.nodes@[i] == pre.nodes@[i],
            post.nodes@[0] is Some,
            post.node_at(0).rect == pre.node_at(0).rect,
            post.node_at(0).children == pre.node_at(0).children,
            post.node_at(0).existing_children == pre.node_at(0).existing_children,
            post.node_at(0).points@ == pre.node_at(0).points@.push(p),
        ensures
            post.descending(pts, 0, p),
    {
        let pp = pts[p as int];
        let qc = post.point_quad(0, p, pts);
        let rect = pre.node_at(0).rect;
        lemma_quadrant_consistent(rect, pp);
        assert(pre.is_node(0));
        assert(pre.node_ok(0));
        // Same nodes are live, with the same structure everywhere.
        Self::lemma_wf_frame(pre, post);
        assert(forall|i: int|
            #[trigger] post.is_node(i) && i != 0 ==> post.node_at(i) == pre.node_at(i));
        assert forall|i: int, q: int|
            0 <= q < 4 && #[trigger] post.child_exists(i, q) implies pre.child_index(i, q)
            >= 1 by {
            assert(pre.node_ok(i));
        }
        // Containment.
        assert forall|i: int| #[trigger] post.is_node(i) implies post.points_ok(i, pts) by {
            assert(pre.points_ok(i, pts));
            if i == 0 {
                assert(forall|k: int|
                    0 <= k < pre.node_at(0).points@.len() ==> post.node_at(0).points@[k]
                        == pre.node_at(0).points@[k]);
            }
        }
        // Filters over the root's list after the push, quadrant by quadrant.
        assert forall|q: int| 0 <= q < 4 implies inside_seq(
            post.node_at(0).points@,
            pts,
            spec_child_rect(rect, q),
        ) == if q == qc {
            inside_seq(pre.node_at(0).points@, pts, spec_child_rect(rect, q)).push(p)
        } else {
            inside_seq(pre.node_at(0).points@, pts, spec_child_rect(rect, q))
        } by {
            lemma_inside_seq_push(pre.node_at(0).points@, pts, spec_child_rect(rect, q), p);
        }
        // Exactness away from the excepted pair.
        assert forall|i: int, q: int|
            0 <= q < 4 && #[trigger] post.child_exists(i, q) && !(i == 0 && q == qc) implies post.child_exact(
            i,
            q,
            pts,
        ) by {
            assert(pre.child_exists(i, q));
            assert(pre.child_exact(i, q, pts));
        }
        // The owed push at the excepted pair.
        if post.child_exists(0, qc) {
            assert(pre.child_exists(0, qc));
            assert(pre.child_exact(0, qc, pts));
        }
        // Thresholds.
        assert forall|i: int, q: int|
            0 <= q < 4 && #[trigger] post.child_exists(i, q) implies post.quad_full(i, q, pts) by {
            assert(pre.child_exists(i, q));
            assert(pre.quad_full(i, q, pts));
        }
        assert forall|i: int, q: int|
            post.is_node(i) && 0 <= q < 4 && !(i == 0 && q == qc) && #[trigger] post.quad_full(
                i,
                q,
                pts,
            ) implies post.child_exists(i, q) by {
            assert(pre.quad_full(i, q, pts));
            assert(pre.child_exists(i, q));
        }
        if !post.child_exists(0, qc) && width(rect) >= pre.min_size && height(rect)
            >= pre.min_size {
            assert(!pre.child_exists(0, qc));
            assert(!pre.quad_full(0, qc, pts));
        }
    }

    /// What holds of the seed of a freshly materialized child: it is
    /// the filter of the parent's list by the quarter-rectangle, it ends
    /// with the point being inserted, its entries are valid and inside
    /// the quarter, and — because the quadrant was at most `cap` deep
    /// when it split — no quadrant of the child other than the inserted
    /// point's own can already be `cap` deep.
    proof fn lemma_newborn_counts(
        parent: Seq<usize>,
        pts: Seq<Point>,
        prect: Rect,
        qc: int,
        p: usize,
        cap: int,
    )
        requires
            forall|k: int|
                0 <= k < parent.len() ==> (#[trigger] parent[k]) < pts.len() && in_rect(
                    prect,
                    pts[parent[k] as int],
                ),
            parent.len() > 0,
            parent.last() == p,
            in_rect(prect, pts[p as int]),
            qc == quad_index(spec_quadrant(prect, pts[p as int])),
            count_inside(parent, pts, spec_child_rect(prect, qc)) <= cap,
            cap >= 1,
        ensures
            ({
                let crect = spec_child_rect(prect, qc);
                let seed = inside_seq(parent, pts, crect);
                let qcc = quad_index(spec_quadrant(crect, pts[p as int]));
                &&& in_rect(crect, pts[p as int])
                &&& seed.len() <= cap
                &&& seed.len() > 0
                &&& seed.last() == p
                &&& forall|k: int|
                    0 <= k < seed.len() ==> (#[trigger] seed[k]) < pts.len() && in_rect(
                        crect,
                        pts[seed[k] as int],
                    )
                &&& forall|q: int|
                    0 <= q < 4 && q != qcc ==> count_inside(
                        seed,
                        pts,
                        spec_child_rect(crect, q),
                    ) < cap
                &&& count_inside(seed, pts, spec_child_rect(crect, qcc)) <= cap
            }),
    {
        let pp = pts[p as int];
        let crect = spec_child_rect(prect, qc);
        let seed = inside_seq(parent, pts, crect);
        let qcc = quad_index(spec_quadrant(crect, pp));
        lemma_quadrant_consistent(prect, pp);
        assert(in_rect(crect, pp));
        assert(seed == inside_seq(parent.drop_last(), pts, crect).push(p));
        lemma_inside_seq_elements(parent, pts, crect);
        assert forall|k: int| 0 <= k < seed.len() implies (#[trigger] seed[k]) < pts.len()
            && in_rect(crect, pts[seed[k] as int]) by {
            assert(parent.contains(seed[k]));
            let j = choose|j: int| 0 <= j < parent.len() && parent[j] == seed[k];
        }
        lemma_count_partition(seed, pts, crect);
        lemma_quadrant_consistent(crect, pp);
        assert(count_inside(seed, pts, spec_child_rect(crect, qcc)) >= 1) by {
            assert(seed.drop_last() =~= inside_seq(parent.drop_last(), pts, crect));
            lemma_inside_seq_push(seed.drop_last(), pts, spec_child_rect(crect, qcc), p);
            assert(seed.drop_last().push(p) =~= seed);
        }
        lemma_count_le_len(seed, pts, spec_child_rect(crect, qcc));
        assert forall|q: int| 0 <= q < 4 && q != qcc implies count_inside(
            seed,
            pts,
            spec_child_rect(crect, q),
        ) < cap by {
            assert(count_inside(seed, pts, spec_child_rect(crect, 0)) + count_inside(
                seed,
                pts,
                spec_child_rect(crect, 1),
            ) + count_inside(seed, pts, spec_child_rect(crect, 2)) + count_inside(
                seed,
                pts,
                spec_child_rect(crect, 3),
            ) == seed.len());
        }
    }

    /// When the descent stands at a node whose relevant quadrant is not
    /// over the threshold, or which is too small to subdivide, the whole
    /// index is consistent again.
    proof fn lemma_finish_descent(self, pts: Seq<Point>, cur: int, p: usize)
        requires
            self.descending(pts, cur, p),
            !self.quad_full(cur, self.point_quad(cur, p, pts), pts),
        ensures
            self.indexed(pts),
    {
        let qc = self.point_quad(cur, p, pts);
        assert(!self.child_exists(cur, qc));
        assert forall|i: int, q: int|
            0 <= q < 4 && #[trigger] self.child_exists(i, q) implies self.child_exact(
            i,
            q,
            pts,
        ) by {
            assert(!(i == cur && q == qc));
        }
    }

    /// Descending into an already materialized child: appending `p` to
    /// the child moves the descent state one level down.
    #[verifier::rlimit(100)]
    #[verifier::spinoff_prover]
    proof fn lemma_descend_push(pre: Tree, post: Tree, pts: Seq<Point>, cur: int, p: usize)
        requires
            pre.descending(pts, cur, p),
            width(pre.node_at(cur).rect) >= pre.min_size,
            height(pre.node_at(cur).rect) >= pre.min_size,
            pre.child_exists(cur, pre.point_quad(cur, p, pts)),
            ({
                let qc = pre.point_quad(cur, p, pts);
                let ci = pre.child_index(cur, qc);
                &&& post.len == pre.len
                &&& post.split_threshold == pre.split_threshold
                &&& post.min_size == pre.min_size
                &&& post.nodes@.len() == pre.nodes@.len()
                &&& forall|i: int|
                    0 <= i < pre.nodes@.len() && i != ci ==> post.nodes@[i] == pre.nodes@[i]
                &&& post.nodes@[ci] is Some
                &&& post.node_at(ci).rect == pre.node_at(ci).rect
                &&& post.node_at(ci).children == pre.node_at(ci).children
                &&& post.node_at(ci).existing_children == pre.node_at(ci).existing_children
                &&& post.node_at(ci).points@ == pre.node_at(ci).points@.push(p)
            }),
        ensures
            post.descending(pts, pre.child_index(cur, pre.point_quad(cur, p, pts)), p),
            post.nodes@[0] is Some,
            post.node_at(0).points@ == pre.node_at(0).points@,
            post.node_at(0).rect == pre.node_at(0).rect,
            width(post.node_at(pre.child_index(cur, pre.point_quad(cur, p, pts))).rect) < width(
                pre.node_at(cur).rect,
            ),
            height(post.node_at(pre.child_index(cur, pre.point_quad(cur, p, pts))).rect) < height(
                pre.node_at(cur).rect,
            ),
    {
        let pp = pts[p as int];
        let qc = pre.point_quad(cur, p, pts);
        let prect = pre.node_at(cur).rect;
        let crect = spec_child_rect(prect, qc);
        let ci = pre.child_index(cur, qc);
        assert(pre.is_node(cur));
        assert(pre.node_ok(cur));
        let base = pre.node_at(cur).children->0 as int;
        assert(cur < base <= ci < base + 4);
        assert(pre.is_node(ci));
        assert(pre.node_at(ci).rect == crect);
        lemma_quadrant_consistent(prect, pp);
        assert(in_rect(crect, pp));
        lemma_child_rect_dims(prect, qc);
        let qcc = post.point_quad(ci, p, pts);
        let ccrect = spec_child_rect(crect, qcc);
        // Structure is unchanged everywhere.
        Self::lemma_wf_frame(pre, post);
        assert(forall|i: int|
            #[trigger] post.is_node(i) && i != ci ==> post.node_at(i) == pre.node_at(i));
        // Only the parent `cur` has `ci` as a child slot.
        assert forall|i: int, q: int|
            0 <= q < 4 && #[trigger] pre.child_exists(i, q) && pre.child_index(i, q) == ci implies i
            == cur && q == qc by {
            pre.lemma_unique_parent(i, q, cur, qc);
        }
        // Containment.
        assert forall|i: int| #[trigger] post.is_node(i) implies post.points_ok(i, pts) by {
            assert(pre.points_ok(i, pts));
            if i == ci {
                assert(forall|k: int|
                    0 <= k < pre.node_at(ci).points@.len() ==> post.node_at(ci).points@[k]
                        == pre.node_at(ci).points@[k]);
            }
        }
        // Filters over the child's grown list, quadrant by quadrant.
        assert forall|q: int| 0 <= q < 4 implies inside_seq(
            post.node_at(ci).points@,
            pts,
            spec_child_rect(crect, q),
        ) == if q == qcc {
            inside_seq(pre.node_at(ci).points@, pts, spec_child_rect(crect, q)).push(p)
        } else {
            inside_seq(pre.node_at(ci).points@, pts, spec_child_rect(crect, q))
        } by {
            lemma_quadrant_consistent(crect, pp);
            lemma_inside_seq_push(pre.node_at(ci).points@, pts, spec_child_rect(crect, q), p);
        }
        // Exactness away from the new excepted pair.
        assert forall|i: int, q: int|
            0 <= q < 4 && #[trigger] post.child_exists(i, q) && !(i == ci && q == qcc) implies post.child_exact(
            i,
            q,
            pts,
        ) by {
            let slot = pre.child_index(i, q);
            if i == cur && q == qc {
                // The owed push is now paid.
                assert(pre.node_at(ci).points@.push(p) == inside_seq(
                    pre.node_at(cur).points@,
                    pts,
                    crect,
                ));
            } else {
                assert(pre.child_exact(i, q, pts));
                if slot == ci {
                    pre.lemma_unique_parent(i, q, cur, qc);
                    assert(false);
                }
                if i == ci {
                    // Grandchild lists are unchanged; the filter over the
                    // child's grown list is unchanged away from `qcc`.
                    assert(pre.node_at(i).children->0 as int > ci);
                }
            }
        }
        // The owed push at the new excepted pair.
        if post.child_exists(ci, qcc) {
            assert(pre.child_exists(ci, qcc));
            assert(pre.child_exact(ci, qcc, pts));
            assert(pre.child_index(ci, qcc) != ci);
        }
        // Thresholds.
        assert forall|i: int, q: int|
            0 <= q < 4 && #[trigger] post.child_exists(i, q) implies post.quad_full(i, q, pts) by {
            assert(pre.child_exists(i, q));
            assert(pre.quad_full(i, q, pts));
        }
        assert forall|i: int, q: int|
            post.is_node(i) && 0 <= q < 4 && !(i == ci && q == qcc) && #[trigger] post.quad_full(
                i,
                q,
                pts,
            ) implies post.child_exists(i, q) by {
            if i == cur && q == qc {
                assert(post.child_exists(cur, qc));
            } else {
                assert(pre.quad_full(i, q, pts));
                assert(pre.child_exists(i, q));
            }
        }
        // The bounded overshoot at the new excepted pair.
        if !post.child_exists(ci, qcc) && width(crect) >= pre.min_size && height(crect)
            >= pre.min_size {
            assert(!pre.child_exists(ci, qcc));
            assert(!pre.quad_full(ci, qcc, pts));
            assert(count_inside(pre.node_at(ci).points@, pts, ccrect) < pre.split_threshold);
        }
        assert(ci != 0);
    }

    /// How the arena of `post` relates to that of `pre` after the empty
    /// slot of `cur`'s block at `p`'s quadrant was filled with the
    /// newborn child and the parent's bitmap gained the quadrant.
    spec fn fill_slot_rel(pre: Tree, post: Tree, pts: Seq<Point>, cur: int, p: usize) -> bool {
        let qc = pre.point_quad(cur, p, pts);
        let crect = spec_child_rect(pre.node_at(cur).rect, qc);
        let ci = pre.child_index(cur, qc);
        &&& post.len == pre.len
        &&& post.split_threshold == pre.split_threshold
        &&& post.min_size == pre.min_size
        &&& post.nodes@.len() == pre.nodes@.len()
        &&& forall|i: int|
            0 <= i < pre.nodes@.len() && i != ci && i != cur ==> post.nodes@[i] == pre.nodes@[i]
        &&& post.nodes@[ci] is Some
        &&& post.node_at(ci).rect == crect
        &&& post.node_at(ci).points@ == inside_seq(pre.node_at(cur).points@, pts, crect)
        &&& post.node_at(ci).children is None
        &&& forall|q: int| 0 <= q < 4 ==> !post.node_at(ci).existing_children@[q]
        &&& post.nodes@[cur] is Some
        &&& post.node_at(cur).rect == pre.node_at(cur).rect
        &&& post.node_at(cur).points == pre.node_at(cur).points
        &&& post.node_at(cur).children == pre.node_at(cur).children
        &&& post.node_at(cur).existing_children@ == pre.node_at(cur).existing_children@.update(
            qc,
            true,
        )
    }

    /// The structural half of `lemma_descend_fill_slot`.
    #[verifier::rlimit(100)]
    #[verifier::spinoff_prover]
    proof fn lemma_fill_slot_wf(pre: Tree, post: Tree, pts: Seq<Point>, cur: int, p: usize)
        requires
            pre.wf(),
            pre.is_node(cur),
            p < pts.len(),
            in_rect(pre.node_at(cur).rect, pts[p as int]),
            width(pre.node_at(cur).rect) >= pre.min_size,
            height(pre.node_at(cur).rect) >= pre.min_size,
            pre.node_at(cur).children is Some,
            !pre.node_at(cur).existing_children@[pre.point_quad(cur, p, pts)],
            Self::fill_slot_rel(pre, post, pts, cur, p),
        ensures
            post.wf(),
            post.is_node(pre.child_index(cur, pre.point_quad(cur, p, pts))),
            forall|i: int|
                i != pre.child_index(cur, pre.point_quad(cur, p, pts)) ==> (#[trigger] post.is_node(
                    i,
                ) <==> pre.is_node(i)),
            forall|i: int|
                #[trigger] post.is_node(i) && i != pre.child_index(
                    cur,
                    pre.point_quad(cur, p, pts),
                ) && i != cur ==> post.node_at(i) == pre.node_at(i),
            forall|i: int, q: int|
                #![trigger post.child_exists(i, q)]
                #![trigger pre.child_exists(i, q)]
                0 <= q < 4 && !(i == cur && q == pre.point_quad(cur, p, pts)) ==> (
                post.child_exists(i, q) <==> pre.child_exists(i, q)),
            post.child_exists(cur, pre.point_quad(cur, p, pts)),
            forall|i: int, q: int|
                0 <= q < 4 && #[trigger] post.child_exists(i, q) && i != pre.child_index(
                    cur,
                    pre.point_quad(cur, p, pts),
                ) ==> post.child_index(i, q) == pre.child_index(i, q),
            forall|i: int, q: int|
                0 <= q < 4 && #[trigger] pre.child_exists(i, q) ==> pre.child_index(i, q)
                    != pre.child_index(cur, pre.point_quad(cur, p, pts)),
    {
        let pp = pts[p as int];
        let qc = pre.point_quad(cur, p, pts);
        let prect = pre.node_at(cur).rect;
        let crect = spec_child_rect(prect, qc);
        let ci = pre.child_index(cur, qc);
        let base = pre.node_at(cur).children->0 as int;
        assert(pre.node_ok(cur));
        assert(cur < base <= ci < base + 4);
        assert(!pre.is_node(ci));
        lemma_quadrant_consistent(prect, pp);
        lemma_child_rect_dims(prect, qc);
        assert(forall|i: int| i != ci ==> (post.is_node(i) <==> pre.is_node(i)));
        assert(post.is_node(ci));
        assert(forall|i: int|
            #[trigger] post.is_node(i) && i != ci && i != cur ==> post.node_at(i) == pre.node_at(
                i,
            ));
        assert forall|i: int| #[trigger] post.is_node(i) implies post.node_ok(i) by {
            if i == ci {
                assert(rect_bounded(crect) && rect_nonempty(crect));
            } else if i == cur {
                assert(pre.node_ok(cur));
                assert forall|q: int| 0 <= q < 4 implies (#[trigger] post.node_at(
                    cur,
                ).existing_children@[q] <==> post.nodes@[base + q] is Some) by {
                    if q != qc {
                        assert(pre.node_at(cur).existing_children@[q] <==> pre.nodes@[base + q]
                            is Some);
                        assert(base + q != ci);
                    }
                }
            } else {
                assert(pre.node_ok(i));
                // This node's child block, if any, avoids the slot that
                // was filled: blocks never overlap.
                if pre.node_at(i).children is Some {
                    let bi = pre.node_at(i).children->0 as int;
                    assert(pre.owns_block(i, bi));
                    if bi == base {
                        assert(pre.owns_block(cur, base));
                        assert(false);
                    }
                    lemma_blocks_disjoint(bi, base, 0, qc);
                    lemma_blocks_disjoint(bi, base, 1, qc);
                    lemma_blocks_disjoint(bi, base, 2, qc);
                    lemma_blocks_disjoint(bi, base, 3, qc);
                }
            }
        }
        assert forall|i: int| 1 <= i && #[trigger] post.is_node(i) implies post.has_parent(i) by {
            if i == ci {
                assert(post.parent_links(cur, ci));
            } else {
                assert(pre.has_parent(i));
                let j = choose|j: int| pre.parent_links(j, i);
                assert(post.parent_links(j, i));
            }
        }
        assert forall|i: int, j: int, b: int|
            #![trigger post.owns_block(i, b), post.owns_block(j, b)]
            post.owns_block(i, b) && post.owns_block(j, b) implies i == j by {
            assert(pre.owns_block(i, b));
            assert(pre.owns_block(j, b));
        }
        assert(post.wf());
        assert forall|i: int, q: int|
            0 <= q < 4 && #[trigger] pre.child_exists(i, q) implies pre.child_index(i, q)
            != ci by {
            assert(pre.node_ok(i));
            assert(pre.node_at(i).existing_children@[q]);
            assert(pre.nodes@[pre.child_index(i, q)] is Some);
            assert(!pre.is_node(ci));
        }
    }

    /// Materializing a child in an empty slot of an existing block: the
    /// newborn child is seeded with the parent's points inside its
    /// quarter, the parent's bitmap gains the quadrant, and the descent
    /// state moves down into the newborn.
    #[verifier::rlimit(100)]
    #[verifier::spinoff_prover]
    proof fn lemma_descend_fill_slot(pre: Tree, post: Tree, pts: Seq<Point>, cur: int, p: usize)
        requires
            pre.descending(pts, cur, p),
            width(pre.node_at(cur).rect) >= pre.min_size,
            height(pre.node_at(cur).rect) >= pre.min_size,
            count_inside(
                pre.node_at(cur).points@,
                pts,
                spec_child_rect(pre.node_at(cur).rect, pre.point_quad(cur, p, pts)),
            ) >= pre.split_threshold,
            pre.node_at(cur).children is Some,
            !pre.node_at(cur).existing_children@[pre.point_quad(cur, p, pts)],
            Self::fill_slot_rel(pre, post, pts, cur, p),
        ensures
            post.descending(pts, pre.child_index(cur, pre.point_quad(cur, p, pts)), p),
            post.nodes@[0] is Some,
            post.node_at(0).points@ == pre.node_at(0).points@,
            post.node_at(0).rect == pre.node_at(0).rect,
            width(post.node_at(pre.child_index(cur, pre.point_quad(cur, p, pts))).rect) < width(
                pre.node_at(cur).rect,
            ),
            height(post.node_at(pre.child_index(cur, pre.point_quad(cur, p, pts))).rect) < height(
                pre.node_at(cur).rect,
            ),
    {
        let pp = pts[p as int];
        let qc = pre.point_quad(cur, p, pts);
        let prect = pre.node_at(cur).rect;
        let crect = spec_child_rect(prect, qc);
        let ci = pre.child_index(cur, qc);
        let base = pre.node_at(cur).children->0 as int;
        assert(pre.is_node(cur));
        assert(pre.node_ok(cur));
        assert(cur < base <= ci < base + 4);
        assert(!pre.is_node(ci));
        assert(!pre.child_exists(cur, qc));
        lemma_quadrant_consistent(prect, pp);
        lemma_child_rect_dims(prect, qc);
        let seed = inside_seq(pre.node_at(cur).points@, pts, crect);
        Self::lemma_newborn_counts(
            pre.node_at(cur).points@,
            pts,
            prect,
            qc,
            p,
            pre.split_threshold as int,
        );
        let qcc = post.point_quad(ci, p, pts);
        let ccrect = spec_child_rect(crect, qcc);
        Self::lemma_fill_slot_wf(pre, post, pts, cur, p);
        assert(post.node_at(cur).points@ == pre.node_at(cur).points@);
        // Containment.
        assert forall|i: int| #[trigger] post.is_node(i) implies post.points_ok(i, pts) by {
            if i != ci {
                assert(pre.points_ok(i, pts));
            }
        }
        // Exactness away from the new excepted pair.
        assert forall|i: int, q: int|
            0 <= q < 4 && #[trigger] post.child_exists(i, q) && !(i == ci && q == qcc) implies post.child_exact(
            i,
            q,
            pts,
        ) by {
            if i == cur && q == qc {
                assert(post.node_at(ci).points@ == seed);
            } else if i == ci {
                assert(false);
            } else {
                assert(pre.child_exists(i, q));
                assert(pre.child_exact(i, q, pts));
            }
        }
        // No grandchildren yet, so nothing is owed below the newborn.
        assert(!post.child_exists(ci, qcc));
        // Thresholds.
        assert forall|i: int, q: int|
            0 <= q < 4 && #[trigger] post.child_exists(i, q) implies post.quad_full(i, q, pts) by {
            if i == cur && q == qc {
                assert(width(prect) >= post.min_size && height(prect) >= post.min_size);
            } else {
                assert(pre.child_exists(i, q));
                assert(pre.quad_full(i, q, pts));
            }
        }
        assert forall|i: int, q: int|
            post.is_node(i) && 0 <= q < 4 && !(i == ci && q == qcc) && #[trigger] post.quad_full(
                i,
                q,
                pts,
            ) implies post.child_exists(i, q) by {
            if i == cur && q == qc {
                assert(post.child_exists(cur, qc));
            } else if i == ci {
                assert(count_inside(seed, pts, spec_child_rect(crect, q)) < pre.split_threshold);
                assert(false);
            } else {
                assert(pre.quad_full(i, q, pts));
                assert(pre.child_exists(i, q));
            }
        }
        // The bounded overshoot at the new excepted pair.
        lemma_count_le_len(seed, pts, ccrect);
        assert(ci != 0);
    }

    /// Reserving a child block: four empty slots are appended and the
    /// node at `cur` points at them, with nothing materialized yet, so
    /// the descent state is undisturbed.
    #[verifier::rlimit(100)]
    #[verifier::spinoff_prover]
    proof fn lemma_reserve_block(pre: Tree, post: Tree, pts: Seq<Point>, cur: int, p: usize)
        requires
            pre.descending(pts, cur, p),
            pre.node_at(cur).children is None,
            post.len == post.nodes@.len(),
            post.split_threshold == pre.split_threshold,
            post.min_size == pre.min_size,
            post.nodes@.len() == pre.nodes@.len() + 4,
            forall|i: int|
                0 <= i < pre.nodes@.len() && i != cur ==> post.nodes@[i] == pre.nodes@[i],
            forall|s: int|
                pre.nodes@.len() <= s < pre.nodes@.len() + 4 ==> (#[trigger] post.nodes@[s])
                    is None,
            post.nodes@[cur] is Some,
            post.node_at(cur).rect == pre.node_at(cur).rect,
            post.node_at(cur).points == pre.node_at(cur).points,
            post.node_at(cur).children is Some,
            post.node_at(cur).children->0 == pre.nodes@.len(),
            post.node_at(cur).existing_children == pre.node_at(cur).existing_children,
        ensures
            post.descending(pts, cur, p),
            post.node_at(cur).children is Some,
            post.node_at(cur).children->0 == pre.nodes@.len(),
            !post.node_at(cur).existing_children@[post.point_quad(cur, p, pts)],
            post.nodes@[0] is Some,
            post.node_at(0).points@ == pre.node_at(0).points@,
            post.node_at(0).rect == pre.node_at(0).rect,
            post.node_at(cur).rect == pre.node_at(cur).rect,
            post.node_at(cur).points@ == pre.node_at(cur).points@,
    {
        let qc = pre.point_quad(cur, p, pts);
        let base = pre.nodes@.len() as int;
        assert(pre.is_node(cur));
        assert(pre.node_ok(cur));
        // The node at `cur` has no materialized child in either state.
        assert(forall|q: int| 0 <= q < 4 ==> !(#[trigger] pre.node_at(
            cur,
        ).existing_children@[q]));
        // Which nodes are live is unchanged.
        assert(forall|i: int| 0 <= i < base ==> (post.is_node(i) <==> pre.is_node(i)));
        assert(forall|i: int| base <= i < base + 4 ==> !post.is_node(i));
        assert(forall|i: int|
            #[trigger] post.is_node(i) && i != cur ==> post.node_at(i) == pre.node_at(i));
        // Every old child block lies inside the old arena, before `base`.
        assert forall|i: int|
            #[trigger] pre.is_node(i) && i != cur && pre.node_at(i).children is Some implies pre.node_at(
            i,
        ).children->0 + 4 <= base by {
            assert(pre.node_ok(i));
        }
        assert forall|i: int| #[trigger] post.is_node(i) implies post.node_ok(i) by {
            if i == cur {
                assert(pre.nodes@.len() % 4 == 1);
            } else {
                assert(pre.node_ok(i));
            }
        }
        assert forall|i: int| 1 <= i && #[trigger] post.is_node(i) implies post.has_parent(i) by {
            assert(pre.has_parent(i));
            let j = choose|j: int| pre.parent_links(j, i);
            assert(j != cur);
            assert(post.parent_links(j, i));
        }
        assert forall|i: int, j: int, b: int|
            #![trigger post.owns_block(i, b), post.owns_block(j, b)]
            post.owns_block(i, b) && post.owns_block(j, b) implies i == j by {
            if i == cur && j != cur {
                assert(pre.owns_block(j, b));
                assert(pre.node_ok(j));
                assert(false);
            } else if j == cur && i != cur {
                assert(pre.owns_block(i, b));
                assert(pre.node_ok(i));
                assert(false);
            } else if i != cur && j != cur {
                assert(pre.owns_block(i, b));
                assert(pre.owns_block(j, b));
            }
        }
        assert(post.wf());
        // Nothing is materialized anywhere new: the child map is as it
        // was, and so is everything the descent state speaks of.
        assert forall|i: int, q: int|
            #![trigger post.child_exists(i, q)]
            #![trigger pre.child_exists(i, q)]
            0 <= q < 4 implies (post.child_exists(i, q) <==> pre.child_exists(i, q)) by {
            if i == cur {
                assert(!pre.node_at(cur).existing_children@[q]);
            }
        }
        assert forall|i: int, q: int|
            0 <= q < 4 && #[trigger] post.child_exists(i, q) implies post.child_index(i, q)
            == pre.child_index(i, q) by {
            assert(i != cur);
        }
        assert(forall|i: int|
            #[trigger] post.is_node(i) ==> post.node_at(i).points@ == pre.node_at(i).points@
                && post.node_at(i).rect == pre.node_at(i).rect);
        assert forall|i: int| #[trigger] post.is_node(i) implies post.points_ok(i, pts) by {
            assert(pre.points_ok(i, pts));
        }
        assert forall|i: int, q: int|
            0 <= q < 4 && #[trigger] post.child_exists(i, q) && !(i == cur && q == qc) implies post.child_exact(
            i,
            q,
            pts,
        ) by {
            assert(pre.child_exists(i, q));
            assert(pre.child_exact(i, q, pts));
            assert(i != cur);
        }
        assert(!post.child_exists(cur, qc));
        assert forall|i: int, q: int|
            0 <= q < 4 && #[trigger] post.child_exists(i, q) implies post.quad_full(i, q, pts) by {
            assert(pre.child_exists(i, q));
            assert(pre.quad_full(i, q, pts));
        }
        assert forall|i: int, q: int|
            post.is_node(i) && 0 <= q < 4 && !(i == cur && q == qc) && #[trigger] post.quad_full(
                i,
                q,
                pts,
            ) implies post.child_exists(i, q) by {
            assert(pre.quad_full(i, q, pts));
            assert(pre.child_exists(i, q));
        }
        assert(post.descending(pts, cur, p));
    }

    /// A tree over the root rectangle `[min, max)` with an empty root
    /// node, no other nodes, and the given configuration: `split_threshold`
    /// points in a quadrant trigger a child there, and nodes thinner than
    /// `min_size` on either axis never subdivide.
    pub fn new(min: Point, max: Point, split_threshold: usize, min_size: i64) -> (t: Tree)
        requires
            rect_bounded(Rect { min, max }),
            rect_nonempty(Rect { min, max }),
            1 <= split_threshold,
            2 <= min_size,
        ensures
            t.wf(),
            t.nodes@.len() == 1,
            t.root_rect() == (Rect { min, max }),
            t.root().points@ == Seq::<usize>::empty(),
            t.split_threshold == split_threshold,
            t.min_size == min_size,
            forall|pts: Seq<Point>| #[trigger] t.indexed(pts),
    {
        let root = Node::new(min, max, Vec::new());
        let mut nodes: Vec<Option<Node>> = Vec::new();
        nodes.push(Some(root));
        let t = Tree { nodes, len: 1, split_threshold, min_size };
        proof {
            assert forall|pts: Seq<Point>| #[trigger] t.indexed(pts) by {
                assert forall|i: int, q: int|
                    #![trigger t.child_exists(i, q)]
                    #![trigger t.quad_full(i, q, pts)]
                    t.is_node(i) && 0 <= q < 4 implies (t.child_exists(i, q) <==> t.quad_full(
                    i,
                    q,
                    pts,
                )) by {
                    assert(!t.child_exists(i, q));
                    assert(count_inside(t.node_at(i).points@, pts, spec_child_rect(t.node_at(i).rect, q)) == 0);
                }
            }
            assert(t.wf());
        }
        t
    }

    /// The number of points the index holds: the root accumulates every
    /// indexed point, so its list length is the total.
    pub fn size(&self) -> (n: usize)
        requires
            self.wf(),
        ensures
            n == self.root().points@.len(),
    {
        self.nodes[0].as_ref().unwrap().points.len()
    }

    /// Builds the block of four child slots with `node` at slot `index`
    /// and the rest empty, or reports an index outside the four
    /// quadrants.
    pub fn choose_nodes(node: Option<Node>, index: usize) -> (r: Result<
        Vec<Option<Node>>,
        String,
    >)
        ensures
            index < 4 ==> r is Ok && r->Ok_0@.len() == 4 && r->Ok_0@[index as int] == node
                && forall|j: int| 0 <= j < 4 && j != index ==> r->Ok_0@[j] is None,
            index >= 4 ==> r is Err,
    {
        match index {
            0 => Ok(vec![node, None, None, None]),
            1 => Ok(vec![None, node, None, None]),
            2 => Ok(vec![None, None, node, None]),
            3 => Ok(vec![None, None, None, node]),
            _ => Err("index out of range".to_owned()),
        }
    }

    /// Materializes, without attaching it, the child node of the root
    /// at `quarter`: the root's quarter-rectangle seeded with the root's
    /// points inside it.
    pub fn add_node(&self, quarter: Quadrant, points: &PointStore) -> (n: Node)
        requires
            self.wf(),
            self.points_ok(0, points@),
        ensures
            n.rect == spec_child_rect(self.root_rect(), quad_index(quarter)),
            n.points@ == inside_seq(
                self.root().points@,
                points@,
                spec_child_rect(self.root_rect(), quad_index(quarter)),
            ),
            n.children is None,
    {
        proof {
            assert(self.is_node(0));
            assert(self.node_ok(0));
        }
        self.nodes[0].as_ref().unwrap().add_node(quarter, points)
    }

    /// Inserts the point at store index `point`: the index is appended
    /// to every node on the way down from the root, materializing a
    /// child wherever the point's quadrant has reached the split
    /// threshold, until the point rests in a node whose quadrant is
    /// below the threshold or which is too small to subdivide.  A point
    /// outside the root rectangle is silently dropped, not an error.
    #[verifier::rlimit(100)]
    #[verifier::spinoff_prover]
    pub fn add_point(&mut self, point: usize, points: &PointStore)
        requires
            old(self).wf(),
            old(self).indexed(points@),
            point < points@.len(),
        ensures
            final(self).wf(),
            final(self).indexed(points@),
            final(self).root_rect() == old(self).root_rect(),
            final(self).split_threshold == old(self).split_threshold,
            final(self).min_size == old(self).min_size,
            in_rect(old(self).root_rect(), points@[point as int]) ==> final(self).root().points@
                == old(self).root().points@.push(point),
            !in_rect(old(self).root_rect(), points@[point as int]) ==> *final(self) == *old(self),
    {
        let pos = points.get(point);
        let root_rect = self.nodes[0].as_ref().unwrap().rect;
        if !point_in_rect(&root_rect, pos) {
            return ;
        }
        let ghost pre0 = *self;
        if let Some(n) = &mut self.nodes[0] {
            n.points.push(point);
        }
        proof {
            Tree::lemma_start_insert(pre0, *self, points@, point);
        }
        let mut cur: usize = 0;
        loop
            invariant
                self.descending(points@, cur as int, point),
                point < points@.len(),
                pos == points@[point as int],
                self.split_threshold == old(self).split_threshold,
                self.min_size == old(self).min_size,
                self.nodes@[0] is Some,
                self.node_at(0).rect == old(self).node_at(0).rect,
                self.node_at(0).points@ == old(self).node_at(0).points@.push(point),
            ensures
                self.descending(points@, cur as int, point),
                !self.quad_full(cur as int, self.point_quad(cur as int, point, points@), points@),
                self.split_threshold == old(self).split_threshold,
                self.min_size == old(self).min_size,
                self.nodes@[0] is Some,
                self.node_at(0).rect == old(self).node_at(0).rect,
                self.node_at(0).points@ == old(self).node_at(0).points@.push(point),
            decreases width(self.node_at(cur as int).rect) + height(self.node_at(cur as int).rect),
        {
            proof {
                assert(self.is_node(cur as int));
                assert(self.node_ok(cur as int));
                assert(self.points_ok(cur as int, points@));
            }
            let n = self.nodes[cur].as_ref().unwrap();
            let cur_rect = n.rect;
            let w = cur_rect.max.x - cur_rect.min.x;
            let h = cur_rect.max.y - cur_rect.min.y;
            if w < self.min_size || h < self.min_size {
                break ;
            }
            let quarter = quadrant_of(&cur_rect, pos);
            let qi = quadrant_index(quarter);
            let cnt = n.how_many_points_in_quarter(quarter, points);
            if cnt < self.split_threshold {
                break ;
            }
            proof {
                assert(qi == self.point_quad(cur as int, point, points@));
                assert(self.quad_full(cur as int, qi as int, points@));
            }
            if self.nodes[cur].as_ref().unwrap().children.is_none() {
                // Reserve a fresh block of four empty child slots.
                let ghost pre = *self;
                let base = self.nodes.len();
                let mut block = Tree::choose_nodes(None, qi).unwrap();
                self.nodes.append(&mut block);
                self.len = self.nodes.len();
                if let Some(nd) = &mut self.nodes[cur] {
                    nd.children = Some(base);
                }
                proof {
                    Tree::lemma_reserve_block(pre, *self, points@, cur as int, point);
                }
            }
            let n2 = self.nodes[cur].as_ref().unwrap();
            let base = n2.children.unwrap();
            let flag = n2.existing_children[qi];
            proof {
                assert(self.node_ok(cur as int));
            }
            let ci = base + qi;
            if !flag {
                // Materialize the child in its reserved slot, seeded
                // with this node's points inside the quarter-rectangle.
                let ghost pre = *self;
                let child = self.nodes[cur].as_ref().unwrap().add_node(quarter, points);
                self.nodes.set(ci, Some(child));
                if let Some(nd) = &mut self.nodes[cur] {
                    nd.existing_children[qi] = true;
                }
                proof {
                    Tree::lemma_descend_fill_slot(pre, *self, points@, cur as int, point);
                }
                cur = ci;
            } else {
                // The child is already there: the point descends into it.
                let ghost pre = *self;
                if let Some(nd) = &mut self.nodes[ci] {
                    nd.points.push(point);
                }
                proof {
                    Tree::lemma_descend_push(pre, *self, points@, cur as int, point);
                }
                cur = ci;
            }
        }
        proof {
            self.lemma_finish_descent(points@, cur as int, point);
        }
    }

    /// A tree of one empty root node is well-formed and consistent with
    /// every snapshot of positions.
    proof fn lemma_single_root(self, pts: Seq<Point>)
        requires
            self.nodes@.len() == 1,
            self.len == 1,
            self.nodes@[0] is Some,
            rect_bounded(self.node_at(0).rect),
            rect_nonempty(self.node_at(0).rect),
            self.node_at(0).points@ == Seq::<usize>::empty(),
            self.node_at(0).children is None,
            forall|q: int| 0 <= q < 4 ==> !self.node_at(0).existing_children@[q],
            1 <= self.split_threshold,
            2 <= self.min_size,
        ensures
            self.wf(),
            self.indexed(pts),
    {
        assert forall|i: int, q: int|
            #![trigger self.child_exists(i, q)]
            #![trigger self.quad_full(i, q, pts)]
            self.is_node(i) && 0 <= q < 4 implies (self.child_exists(i, q) <==> self.quad_full(
            i,
            q,
            pts,
        )) by {
            assert(!self.child_exists(i, q));
            assert(count_inside(self.node_at(i).points@, pts, spec_child_rect(self.node_at(i).rect, q)) == 0);
        }
        assert(self.wf());
    }

    /// Rebuilds the index from scratch against the current snapshot of
    /// positions: every node but the root is discarded, the root is
    /// cleared, and every store index is re-inserted in order.  The
    /// result is independent of anything but the snapshot, the root
    /// rectangle and the configuration.
    pub fn update(&mut self, points: &PointStore)
        requires
            old(self).wf(),
        ensures
            final(self).wf(),
            final(self).indexed(points@),
            final(self).rebuilt(points@),
            final(self).root_rect() == old(self).root_rect(),
            final(self).split_threshold == old(self).split_threshold,
            final(self).min_size == old(self).min_size,
    {
        let root_rect = self.nodes[0].as_ref().unwrap().rect;
        self.nodes.truncate(1);
        self.nodes.set(0, Some(Node::new(root_rect.min, root_rect.max, Vec::new())));
        self.len = 1;
        proof {
            assert(self.is_node(0));
            self.lemma_single_root(points@);
            assert(self.root().points@ =~= inside_seq(
                index_seq(0),
                points@,
                self.root_rect(),
            ));
        }
        let n = points.len();
        let mut i: usize = 0;
        while i < n
            invariant
                n == points@.len(),
                i <= n,
                self.wf(),
                self.indexed(points@),
                self.root().points@ == inside_seq(
                    index_seq(i as nat),
                    points@,
                    self.root_rect(),
                ),
                self.root_rect() == old(self).root_rect(),
                self.split_threshold == old(self).split_threshold,
                self.min_size == old(self).min_size,
            decreases n - i,
        {
            proof {
                assert(index_seq((i + 1) as nat) =~= index_seq(i as nat).push(i));
                lemma_inside_seq_push(index_seq(i as nat), points@, self.root_rect(), i);
            }
            self.add_point(i, points);
            i = i + 1;
        }
    }

    /// Every live node in arena order as its rectangle and its point
    /// count: the finite, restartable sequence a renderer walks to draw
    /// the partition.
    pub fn iter_nodes(&self) -> (v: Vec<(Rect, usize)>)
        ensures
            v@ == node_summaries(self.nodes@),
    {
        let mut v: Vec<(Rect, usize)> = Vec::new();
        let mut k: usize = 0;
        while k < self.nodes.len()
            invariant
                k <= self.nodes@.len(),
                v@ == node_summaries(self.nodes@.take(k as int)),
            decreases self.nodes@.len() - k,
        {
            proof {
                assert(self.nodes@.take(k + 1) =~= self.nodes@.take(k as int).push(
                    self.nodes@[k as int],
                ));
                assert(self.nodes@.take(k + 1).drop_last() =~= self.nodes@.take(k as int));
            }
            match &self.nodes[k] {
                Some(node) => {
                    v.push((node.rect, node.points.len()));
                },
                None => {},
            }
            k = k + 1;
        }
        proof {
            assert(self.nodes@.take(self.nodes@.len() as int) =~= self.nodes@);
        }
        v
    }

    /// The positions of every indexed point, in the root's order: the
    /// finite, restartable sequence a renderer walks to draw markers.
    pub fn iter_points(&self, points: &PointStore) -> (v: Vec<Point>)
        requires
            self.wf(),
            self.points_ok(0, points@),
        ensures
            v@.len() == self.root().points@.len(),
            forall|k: int|
                0 <= k < v@.len() ==> v@[k] == points@[self.root().points@[k] as int],
    {
        let root = self.nodes[0].as_ref().unwrap();
        let mut v: Vec<Point> = Vec::new();
        let mut k: usize = 0;
        while k < root.points.len()
            invariant
                self.wf(),
                self.points_ok(0, points@),
                root == self.node_at(0),
                k <= root.points@.len(),
                v@.len() == k,
                forall|j: int|
                    0 <= j < k ==> v@[j] == points@[self.root().points@[j] as int],
            decreases root.points@.len() - k,
        {
            let idx = root.points[k];
            v.push(points.get(idx));
            k = k + 1;
        }
        v
    }
}

/// The live nodes of an arena, in order, each as its rectangle and its
/// point count.
pub open spec fn node_summaries(arena: Seq<Option<Node>>) -> Seq<(Rect, usize)>
    decreases arena.len(),
{
    if arena.len() == 0 {
        Seq::<(Rect, usize)>::empty()
    } else {
        let rest = node_summaries(arena.drop_last());
        match arena.last() {
            Option::Some(n) => rest.push((n.rect, n.points@.len() as usize)),
            Option::None => rest,
        }
    }
}

/// Two distinct child blocks, each based on a block boundary, share no
/// arena slot.
proof fn lemma_blocks_disjoint(b1: int, b2: int, q1: int, q2: int)
    requires
        b1 % 4 == 1,
        b2 % 4 == 1,
        b1 != b2,
        0 <= q1 < 4,
        0 <= q2 < 4,
    ensures
        b1 + q1 != b2 + q2,
{
    if b1 + q1 == b2 + q2 {
        vstd::arithmetic::div_mod::lemma_fundamental_div_mod(b1, 4);
        vstd::arithmetic::div_mod::lemma_fundamental_div_mod(b2, 4);
        assert(b1 == 4 * (b1 / 4) + 1);
        assert(b2 == 4 * (b2 / 4) + 1);
        assert(4 * (b1 / 4) - 4 * (b2 / 4) == q2 - q1);
        assert(4 * ((b1 / 4) - (b2 / 4)) == q2 - q1) by (nonlinear_arith)
            requires
                4 * (b1 / 4) - 4 * (b2 / 4) == q2 - q1,
        ;
        assert((b1 / 4) - (b2 / 4) == 0) by (nonlinear_arith)
            requires
                4 * ((b1 / 4) - (b2 / 4)) == q2 - q1,
                -4 < q2 - q1 < 4,
        ;
        assert(false);
    }
}

/// The query surface shared by a single node and by the whole tree,
/// where the tree answers for its root rectangle.
pub trait NodeTrait {
    /// The rectangle the implementor answers for.
    spec fn region(&self) -> Rect;

    /// What must hold of the implementor for the queries to be asked.
    spec fn valid(&self) -> bool;

    /// Whether the point at `point` falls inside the region, half-open
    /// on both axes.
    fn point_inside(&self, point: usize, points: &PointStore) -> (r: bool)
        requires
            self.valid(),
            point < points@.len(),
        ensures
            r == in_rect(self.region(), points@[point as int]),
    ;

    /// The quadrant of the region that the point at `point` falls in.
    fn quarter(&self, point: usize, points: &PointStore) -> (q: Quadrant)
        requires
            self.valid(),
            point < points@.len(),
        ensures
            q == spec_quadrant(self.region(), points@[point as int]),
    ;

    /// Bit-packs a quadrant into its index in `0..4`.
    fn quarter_index(&self, quarter: Quadrant) -> (i: usize)
        ensures
            i == quad_index(quarter),
            i < 4,
    ;

    /// The quadrant behind an index, or an error for an index outside
    /// the four quadrants.
    fn index_quarter(index: u8) -> (q: Result<Quadrant, String>)
        ensures
            index < 4 ==> q is Ok && q->Ok_0 == spec_index_quadrant(index as int),
            index >= 4 ==> q is Err,
    ;
}

impl NodeTrait for Node {
    open spec fn region(&self) -> Rect {
        self.rect
    }

    open spec fn valid(&self) -> bool {
        rect_bounded(self.rect) && rect_nonempty(self.rect)
    }

    fn point_inside(&self, point: usize, points: &PointStore) -> (r: bool) {
        point_in_rect(&self.rect, points.get(point))
    }

    fn quarter(&self, point: usize, points: &PointStore) -> (q: Quadrant) {
        quadrant_of(&self.rect, points.get(point))
    }

    fn quarter_index(&self, quarter: Quadrant) -> (i: usize) {
        quadrant_index(quarter)
    }

    fn index_quarter(index: u8) -> (q: Result<Quadrant, String>) {
        if index < 4 {
            Ok(Quadrant { x_bit: index % 2 == 1, y_bit: index / 2 == 1 })
        } else {
            Err("index is not valid".to_owned())
        }
    }
}

impl NodeTrait for Tree {
    open spec fn region(&self) -> Rect {
        self.root_rect()
    }

    open spec fn valid(&self) -> bool {
        self.wf()
    }

    fn point_inside(&self, point: usize, points: &PointStore) -> (r: bool) {
        proof {
            assert(self.is_node(0));
        }
        self.nodes[0].as_ref().unwrap().point_inside(point, points)
    }

    fn quarter(&self, point: usize, points: &PointStore) -> (q: Quadrant) {
        proof {
            assert(self.is_node(0));
        }
        self.nodes[0].as_ref().unwrap().quarter(point, points)
    }

    fn quarter_index(&self, quarter: Quadrant) -> (i: usize) {
        quadrant_index(quarter)
    }

    fn index_quarter(index: u8) -> (q: Result<Quadrant, String>) {
        Node::index_quarter(index)
    }
}

impl Node {
    /// Whether the point at `point` falls inside this node's
    /// quarter-rectangle at `quarter`.
    pub fn is_inside_quarter(&self, point: usize, quarter: Quadrant, points: &PointStore) -> (r:
        bool)
        requires
            self.valid(),
            point < points@.len(),
        ensures
            r == in_rect(
                spec_child_rect(self.rect, quad_index(quarter)),
                points@[point as int],
            ),
    {
        let rect = child_rect(&self.rect, quadrant_index(quarter));
        point_in_rect(&rect, points.get(point))
    }

    /// How many of this node's points fall inside its quarter-rectangle
    /// at `quarter`; recomputed on demand, never cached.
    pub fn how_many_points_in_quarter(&self, quarter: Quadrant, points: &PointStore) -> (n: usize)
        requires
            self.valid(),
            forall|k: int|
                0 <= k < self.points@.len() ==> (#[trigger] self.points@[k]) < points@.len(),
        ensures
            n == count_inside(self.points@, points@, spec_child_rect(self.rect, quad_index(quarter))),
    {
        let rect = child_rect(&self.rect, quadrant_index(quarter));
        let ghost target = spec_child_rect(self.rect, quad_index(quarter));
        let mut n: usize = 0;
        let mut k: usize = 0;
        while k < self.points.len()
            invariant
                self.valid(),
                forall|j: int|
                    0 <= j < self.points@.len() ==> (#[trigger] self.points@[j]) < points@.len(),
                rect == target,
                k <= self.points@.len(),
                n == count_inside(self.points@.take(k as int), points@, target),
                n <= k,
            decreases self.points@.len() - k,
        {
            proof {
                assert(self.points@.take(k + 1) =~= self.points@.take(k as int).push(
                    self.points@[k as int],
                ));
                lemma_inside_seq_push(self.points@.take(k as int), points@, target, self.points@[k as int]);
            }
            let idx = self.points[k];
            if point_in_rect(&rect, points.get(idx)) {
                n = n + 1;
            }
            k = k + 1;
        }
        proof {
            assert(self.points@.take(self.points@.len() as int) =~= self.points@);
        }
        n
    }

    /// The subsequence of this node's points that fall inside `rect`,
    /// in order: the seed for a freshly materialized child.
    pub fn get_points_inside(&self, rect: &Rect, points: &PointStore) -> (v: Vec<usize>)
        requires
            forall|k: int|
                0 <= k < self.points@.len() ==> (#[trigger] self.points@[k]) < points@.len(),
        ensures
            v@ == inside_seq(self.points@, points@, *rect),
    {
        let mut v: Vec<usize> = Vec::new();
        let mut k: usize = 0;
        while k < self.points.len()
            invariant
                forall|j: int|
                    0 <= j < self.points@.len() ==> (#[trigger] self.points@[j]) < points@.len(),
                k <= self.points@.len(),
                v@ == inside_seq(self.points@.take(k as int), points@, *rect),
            decreases self.points@.len() - k,
        {
            proof {
                assert(self.points@.take(k + 1) =~= self.points@.take(k as int).push(
                    self.points@[k as int],
                ));
                lemma_inside_seq_push(self.points@.take(k as int), points@, *rect, self.points@[k as int]);
            }
            let idx = self.points[k];
            if point_in_rect(rect, points.get(idx)) {
                v.push(idx);
            }
            k = k + 1;
        }
        proof {
            assert(self.points@.take(self.points@.len() as int) =~= self.points@);
        }
        v
    }

    /// Materializes the child node of this node at `quarter`: its exact
    /// quarter-rectangle, seeded with every point of this node that
    /// falls inside it.
    pub fn add_node(&self, quarter: Quadrant, points: &PointStore) -> (n: Node)
        requires
            self.valid(),
            forall|k: int|
                0 <= k < self.points@.len() ==> (#[trigger] self.points@[k]) < points@.len(),
        ensures
            n.rect == spec_child_rect(self.rect, quad_index(quarter)),
            n.points@ == inside_seq(
                self.points@,
                points@,
                spec_child_rect(self.rect, quad_index(quarter)),
            ),
            n.children is None,
            forall|q: int| 0 <= q < 4 ==> !n.existing_children@[q],
    {
        let rect = child_rect(&self.rect, quadrant_index(quarter));
        let seed = self.get_points_inside(&rect, points);
        Node::new(rect.min, rect.max, seed)
    }
}

} // verus!
