//! The point store: the one owner of the authoritative positions of all
//! tracked points.
//!
//! The tree never holds a position, only stable indices into this store;
//! an external driver may move the points between update cycles and the
//! index observes the new positions at the next rebuild.

use crate::geometry::Point;
use vstd::prelude::*;

verus! {

/// The backing sequence of point positions, addressed by dense indices.
#[derive(Debug)]
pub struct PointStore {
    positions: Vec<Point>,
}

impl View for PointStore {
    type V = Seq<Point>;

    closed spec fn view(&self) -> Seq<Point> {
        self.positions@
    }
}

impl PointStore {
    /// An empty store.
    pub fn new() -> (s: PointStore)
        ensures
            s@ == Seq::<Point>::empty(),
    {
        PointStore { positions: Vec::new() }
    }

    pub fn len(&self) -> (n: usize)
        ensures
            n == self@.len(),
    {
        self.positions.len()
    }

    /// The position of the point at index `i`.
    pub fn get(&self, i: usize) -> (p: Point)
        requires
            i < self@.len(),
        ensures
            p == self@[i as int],
    {
        self.positions[i]
    }

    /// Tracks one more point; its index is the previous length.
    pub fn push(&mut self, p: Point)
        ensures
            final(self)@ == old(self)@.push(p),
    {
        self.positions.push(p);
    }

    /// Moves the point at index `i` to position `p`.
    pub fn set(&mut self, i: usize, p: Point)
        requires
            i < old(self)@.len(),
        ensures
            final(self)@ == old(self)@.update(i as int, p),
    {
        self.positions.set(i, p);
    }
}

/// Reflects every coordinate that has strayed outside `[-bound, bound]`
/// back to its mirror image, leaving all other coordinates untouched.
pub fn bouncy_points(points: &mut PointStore, bound: i64)
    requires
        bound >= 0,
        forall|k: int|
            0 <= k < old(points)@.len() ==> -i64::MAX <= #[trigger] old(points)@[k].x <= i64::MAX
                && -i64::MAX <= old(points)@[k].y <= i64::MAX,
    ensures
        final(points)@.len() == old(points)@.len(),
        forall|k: int|
            0 <= k < old(points)@.len() ==> #[trigger] final(points)@[k] == bounce(
                old(points)@[k],
                bound,
            ),
{
    let n = points.len();
    let mut i: usize = 0;
    while i < n
        invariant
            n == points@.len(),
            n == old(points)@.len(),
            i <= n,
            bound >= 0,
            forall|k: int|
                0 <= k < n ==> -i64::MAX <= #[trigger] old(points)@[k].x <= i64::MAX && -i64::MAX
                    <= old(points)@[k].y <= i64::MAX,
            forall|k: int| 0 <= k < i ==> #[trigger] points@[k] == bounce(old(points)@[k], bound),
            forall|k: int| i <= k < n ==> #[trigger] points@[k] == old(points)@[k],
        decreases n - i,
    {
        let p = points.get(i);
        let x = if p.x > bound || p.x < -bound {
            -p.x
        } else {
            p.x
        };
        let y = if p.y > bound || p.y < -bound {
            -p.y
        } else {
            p.y
        };
        points.set(i, Point { x, y });
        i = i + 1;
    }
}

/// What one bounce step does to a single position.
pub open spec fn bounce(p: Point, bound: i64) -> Point {
    Point {
        x: if p.x > bound || p.x < -bound {
            (-p.x as int) as i64
        } else {
            p.x
        },
        y: if p.y > bound || p.y < -bound {
            (-p.y as int) as i64
        } else {
            p.y
        },
    }
}

} // verus!
