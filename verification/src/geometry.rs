//! Quadrant geometry: rectangles, the point-in-rectangle test, and the
//! classification of a point into one of the four quadrants of a node.
//!
//! Every rectangle is half-open on both axes: a point belongs to
//! `[min, max)` when `min <= p < max` coordinate-wise.  The four child
//! rectangles of a node split it at the node's midpoint and tile it
//! exactly, so a coordinate equal to a split line belongs to the upper
//! child and to no other, which keeps the quadrant classification and the
//! point-in-rectangle test consistent with each other.

use vstd::prelude::*;

verus! {

/// Coordinates are kept within this bound so that widths, heights and
/// midpoints can be computed without overflow.
pub const COORD_LIMIT: i64 = 0x2000_0000_0000_0000;

/// A position on the plane.
#[derive(Clone, Copy, PartialEq, Eq, Structural, Debug)]
pub struct Point {
    pub x: i64,
    pub y: i64,
}

/// An axis-aligned rectangle `[min, max)`, half-open on both axes.
#[derive(Clone, Copy, PartialEq, Eq, Structural, Debug)]
pub struct Rect {
    pub min: Point,
    pub max: Point,
}

/// One of the four quadrants of a node, as a pair of sign bits relative
/// to the node's midpoint: a set bit means the upper half of that axis.
#[derive(Clone, Copy, PartialEq, Eq, Structural, Debug)]
pub struct Quadrant {
    pub x_bit: bool,
    pub y_bit: bool,
}

/// The half-open membership test `min <= p < max`, coordinate-wise.
pub open spec fn in_rect(r: Rect, p: Point) -> bool {
    r.min.x <= p.x < r.max.x && r.min.y <= p.y < r.max.y
}

/// A rectangle that contains at least one point.
pub open spec fn rect_nonempty(r: Rect) -> bool {
    r.min.x < r.max.x && r.min.y < r.max.y
}

/// All four corners within the coordinate bound.
pub open spec fn rect_bounded(r: Rect) -> bool {
    &&& -COORD_LIMIT <= r.min.x <= COORD_LIMIT
    &&& -COORD_LIMIT <= r.max.x <= COORD_LIMIT
    &&& -COORD_LIMIT <= r.min.y <= COORD_LIMIT
    &&& -COORD_LIMIT <= r.max.y <= COORD_LIMIT
}

pub open spec fn width(r: Rect) -> int {
    r.max.x - r.min.x
}

pub open spec fn height(r: Rect) -> int {
    r.max.y - r.min.y
}

/// The x coordinate of the split line between the lower and upper
/// x-halves of `r`.
pub open spec fn mid_x(r: Rect) -> int {
    r.min.x + (r.max.x - r.min.x) / 2
}

/// The y coordinate of the split line between the lower and upper
/// y-halves of `r`.
pub open spec fn mid_y(r: Rect) -> int {
    r.min.y + (r.max.y - r.min.y) / 2
}

/// The quadrant of `r` that `p` falls in: a coordinate at or above the
/// split line selects the upper half of that axis.
pub open spec fn spec_quadrant(r: Rect, p: Point) -> Quadrant {
    Quadrant { x_bit: p.x >= mid_x(r), y_bit: p.y >= mid_y(r) }
}

/// Bit-packs a quadrant into an index in `0..4`.
pub open spec fn quad_index(q: Quadrant) -> int {
    (if q.x_bit {
        1int
    } else {
        0int
    }) + (if q.y_bit {
        2int
    } else {
        0int
    })
}

/// The inverse of `quad_index`.
pub open spec fn spec_index_quadrant(i: int) -> Quadrant {
    Quadrant { x_bit: i % 2 == 1, y_bit: i / 2 == 1 }
}

/// The quarter-rectangle of `r` at quadrant index `i`: the split lines
/// `mid_x` and `mid_y` bound the four quarters, which tile `r` exactly.
pub open spec fn spec_child_rect(r: Rect, i: int) -> Rect {
    let q = spec_index_quadrant(i);
    Rect {
        min: Point {
            x: if q.x_bit {
                mid_x(r) as i64
            } else {
                r.min.x
            },
            y: if q.y_bit {
                mid_y(r) as i64
            } else {
                r.min.y
            },
        },
        max: Point {
            x: if q.x_bit {
                r.max.x
            } else {
                mid_x(r) as i64
            },
            y: if q.y_bit {
                r.max.y
            } else {
                mid_y(r) as i64
            },
        },
    }
}

/// The half-open membership test, executed.
pub fn point_in_rect(r: &Rect, p: Point) -> (b: bool)
    ensures
        b == in_rect(*r, p),
{
    r.min.x <= p.x && p.x < r.max.x && r.min.y <= p.y && p.y < r.max.y
}

/// The midpoint split lines of a bounded, non-empty rectangle.
pub fn midpoint(r: &Rect) -> (m: Point)
    requires
        rect_bounded(*r),
        rect_nonempty(*r),
    ensures
        m.x == mid_x(*r),
        m.y == mid_y(*r),
{
    let wx = (r.max.x - r.min.x) as u64;
    let wy = (r.max.y - r.min.y) as u64;
    Point { x: r.min.x + (wx / 2) as i64, y: r.min.y + (wy / 2) as i64 }
}

/// Classifies a point of the plane against the midpoint of `r`.
pub fn quadrant_of(r: &Rect, p: Point) -> (q: Quadrant)
    requires
        rect_bounded(*r),
        rect_nonempty(*r),
    ensures
        q == spec_quadrant(*r, p),
{
    let m = midpoint(r);
    Quadrant { x_bit: p.x >= m.x, y_bit: p.y >= m.y }
}

/// Bit-packs a quadrant into its index in `0..4`, executed.
pub fn quadrant_index(q: Quadrant) -> (i: usize)
    ensures
        i == quad_index(q),
        i < 4,
{
    (if q.x_bit {
        1
    } else {
        0
    }) + (if q.y_bit {
        2
    } else {
        0
    })
}

/// The quarter-rectangle of `r` at quadrant index `i`, executed.
pub fn child_rect(r: &Rect, i: usize) -> (c: Rect)
    requires
        rect_bounded(*r),
        rect_nonempty(*r),
        i < 4,
    ensures
        c == spec_child_rect(*r, i as int),
{
    let m = midpoint(r);
    let x_bit = i % 2 == 1;
    let y_bit = i / 2 == 1;
    Rect {
        min: Point {
            x: if x_bit {
                m.x
            } else {
                r.min.x
            },
            y: if y_bit {
                m.y
            } else {
                r.min.y
            },
        },
        max: Point {
            x: if x_bit {
                r.max.x
            } else {
                m.x
            },
            y: if y_bit {
                r.max.y
            } else {
                m.y
            },
        },
    }
}

/// The split lines lie inside `[min, max]` on both axes.
pub proof fn lemma_mid_in_range(r: Rect)
    requires
        width(r) >= 0,
        height(r) >= 0,
    ensures
        r.min.x <= mid_x(r) <= r.max.x,
        r.min.y <= mid_y(r) <= r.max.y,
{
    assert(0 <= (r.max.x - r.min.x) / 2 <= r.max.x - r.min.x) by (nonlinear_arith)
        requires
            r.max.x - r.min.x >= 0,
    ;
    assert(0 <= (r.max.y - r.min.y) / 2 <= r.max.y - r.min.y) by (nonlinear_arith)
        requires
            r.max.y - r.min.y >= 0,
    ;
}

/// A point of `r` lies in the child rectangle of its own quadrant and in
/// no other: the quadrant classification agrees with the half-open
/// membership test on the four quarters.
pub proof fn lemma_quadrant_consistent(r: Rect, p: Point)
    requires
        in_rect(r, p),
    ensures
        0 <= quad_index(spec_quadrant(r, p)) < 4,
        in_rect(spec_child_rect(r, quad_index(spec_quadrant(r, p))), p),
        forall|j: int|
            0 <= j < 4 && j != quad_index(spec_quadrant(r, p)) ==> !in_rect(
                spec_child_rect(r, j),
                p,
            ),
{
    lemma_mid_in_range(r);
    let i = quad_index(spec_quadrant(r, p));
    assert(spec_index_quadrant(i) == spec_quadrant(r, p));
    assert forall|j: int| 0 <= j < 4 && j != i implies !in_rect(spec_child_rect(r, j), p) by {
        assert(spec_index_quadrant(j).x_bit != spec_quadrant(r, p).x_bit || spec_index_quadrant(
            j,
        ).y_bit != spec_quadrant(r, p).y_bit);
    }
}

/// A point of any child rectangle lies in the parent, and that child is
/// the one of the point's own quadrant.
pub proof fn lemma_child_in_parent(r: Rect, i: int, p: Point)
    requires
        0 <= i < 4,
        width(r) >= 0,
        height(r) >= 0,
        in_rect(spec_child_rect(r, i), p),
    ensures
        in_rect(r, p),
        quad_index(spec_quadrant(r, p)) == i,
{
    lemma_mid_in_range(r);
    assert(spec_index_quadrant(quad_index(spec_index_quadrant(i))) == spec_index_quadrant(i));
}

/// Each child rectangle nests inside its parent, stays within the
/// coordinate bound, and both of its dimensions shrink strictly whenever
/// the parent measures at least 2 on both axes.
pub proof fn lemma_child_rect_dims(r: Rect, i: int)
    requires
        0 <= i < 4,
        rect_nonempty(r),
        rect_bounded(r),
    ensures
        r.min.x <= spec_child_rect(r, i).min.x,
        r.min.y <= spec_child_rect(r, i).min.y,
        spec_child_rect(r, i).max.x <= r.max.x,
        spec_child_rect(r, i).max.y <= r.max.y,
        rect_bounded(spec_child_rect(r, i)),
        width(spec_child_rect(r, i)) <= width(r),
        height(spec_child_rect(r, i)) <= height(r),
        width(r) >= 2 && height(r) >= 2 ==> width(spec_child_rect(r, i)) < width(r) && height(
            spec_child_rect(r, i),
        ) < height(r) && rect_nonempty(spec_child_rect(r, i)),
{
    lemma_mid_in_range(r);
    assert((r.max.x - r.min.x) / 2 < r.max.x - r.min.x || r.max.x - r.min.x < 2)
        by (nonlinear_arith)
        requires
            r.max.x - r.min.x >= 1,
    ;
    assert((r.max.y - r.min.y) / 2 < r.max.y - r.min.y || r.max.y - r.min.y < 2)
        by (nonlinear_arith)
        requires
            r.max.y - r.min.y >= 1,
    ;
    assert((r.max.x - r.min.x) / 2 >= 1 || r.max.x - r.min.x < 2) by (nonlinear_arith)
        requires
            r.max.x - r.min.x >= 1,
    ;
    assert((r.max.y - r.min.y) / 2 >= 1 || r.max.y - r.min.y < 2) by (nonlinear_arith)
        requires
            r.max.y - r.min.y >= 1,
    ;
}

} // verus!
